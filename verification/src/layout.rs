//! What the layout of a program text does not change: comments, white space and blank lines.

use crate::grammar::{header_words, read_line, without_colons, LineModel};
use crate::parse::{
    closed, nothing, parse, parse_from, step, OutcomeModel, ProgressModel, StepModel,
};
use crate::scan::{
    is_space, lemma_trim_end, lemma_trim_start, lemma_up_to, lemma_word, lemma_word_bounds,
    line_text, lines, trim_end, trim_start, up_to, word, words,
};
use vstd::prelude::*;

verus! {

/// The forms of lines, without the blank ones.
pub open spec fn forms(all: Seq<Seq<char>>) -> Seq<LineModel>
    decreases all.len(),
{
    if all.len() == 0 {
        seq![]
    } else if read_line(all[0]) == LineModel::Blank {
        forms(all.drop_first())
    } else {
        seq![read_line(all[0])] + forms(all.drop_first())
    }
}

/// What taking forms one after the other comes to.
pub open spec fn steps(p: ProgressModel, taken: Seq<LineModel>) -> StepModel
    decreases taken.len(),
{
    if taken.len() == 0 {
        StepModel::Next(p)
    } else {
        match step(p, taken[0]) {
            StepModel::Next(next) => steps(next, taken.drop_first()),
            other => other,
        }
    }
}

/// The outcome is the one that the steps come to.
pub open spec fn comes_to(outcome: OutcomeModel, end: StepModel) -> bool {
    match end {
        StepModel::Next(p) => outcome == OutcomeModel::Parsed(closed(p)),
        StepModel::Stop(wrong) => outcome matches OutcomeModel::Failed { number, complaint, text }
            && complaint == wrong,
        StepModel::Truncated => outcome is Truncated,
    }
}

/// Two texts parse to the same functions, or fail with the same complaint, or are both truncated.
pub open spec fn same_outcome(a: OutcomeModel, b: OutcomeModel) -> bool {
    match a {
        OutcomeModel::Parsed(funcs) => b == OutcomeModel::Parsed(funcs),
        OutcomeModel::Failed { number, complaint, text } => b matches OutcomeModel::Failed {
            number: n,
            complaint: c,
            text: t,
        } && c == complaint,
        OutcomeModel::Truncated => b is Truncated,
    }
}

/// Parsing takes the forms of the lines one after the other.
proof fn lemma_parse_takes_forms(all: Seq<Seq<char>>, at: nat, p: ProgressModel)
    requires
        at <= all.len(),
    ensures
        comes_to(parse_from(all, at, p), steps(p, forms(all.skip(at as int)))),
    decreases all.len() - at,
{
    let rest = all.skip(at as int);
    if at < all.len() {
        assert(rest[0] == all[at as int]);
        assert(rest.drop_first() == all.skip(at as int + 1));
        let line = read_line(all[at as int]);
        if line != LineModel::Blank {
            let taken = seq![line] + forms(rest.drop_first());
            assert(taken[0] == line);
            assert(taken.drop_first() == forms(rest.drop_first()));
        }
        if let StepModel::Next(next) = step(p, line) {
            lemma_parse_takes_forms(all, at + 1, next);
        }
    }
}

/// Layout is insignificant: texts whose lines have the same forms, blank lines aside, parse to
/// the same functions or fail with the same complaint.
pub proof fn law_layout_is_insignificant(a: Seq<char>, b: Seq<char>)
    requires
        forms(lines(a)) == forms(lines(b)),
    ensures
        same_outcome(parse(a), parse(b)),
{
    lemma_parse_takes_forms(lines(a), 0, nothing());
    lemma_parse_takes_forms(lines(b), 0, nothing());
    assert(lines(a).skip(0) == lines(a));
    assert(lines(b).skip(0) == lines(b));
}

/// `#` starts a comment: what follows it does not change the form of a line.
pub proof fn law_comment_is_ignored(raw: Seq<char>, comment: Seq<char>)
    ensures
        read_line(raw + seq!['#'] + comment) == read_line(raw),
{
    lemma_up_to_stop(raw, comment, '#');
}

/// What follows a stop does not change what comes before it.
pub proof fn lemma_up_to_stop(s: Seq<char>, tail: Seq<char>, stop: char)
    ensures
        up_to(s + seq![stop] + tail, stop) == up_to(s, stop),
    decreases s.len(),
{
    let longer = s + seq![stop] + tail;
    if s.len() > 0 && s[0] != stop {
        assert(longer.drop_first() == s.drop_first() + seq![stop] + tail);
        lemma_up_to_stop(s.drop_first(), tail, stop);
    }
}

/// White space is insignificant: the form of a line is settled by its words.
pub proof fn law_white_space_is_insignificant(a: Seq<char>, b: Seq<char>)
    requires
        words(line_text(a)) == words(line_text(b)),
    ensures
        read_line(a) == read_line(b),
{
    lemma_text_and_words(a);
    lemma_text_and_words(b);
}

/// A text without white space is its only word.
pub proof fn lemma_one_word(s: Seq<char>)
    requires
        s.len() > 0,
        forall|i: int| 0 <= i < s.len() ==> !is_space(#[trigger] s[i]),
    ensures
        words(s) == seq![s],
{
    let n = s.len() as int;
    lemma_word(s, n);
    assert(s.take(n) == s);
    assert(s.skip(n) == Seq::<char>::empty());
    assert(words(s) == seq![s] + words(s.skip(n)));
}

/// White space before the colon of a block header is insignificant: `bb0 :` is the header of `bb0`.
pub proof fn law_white_space_before_colon_is_insignificant(id: Seq<char>, gap: Seq<char>)
    requires
        id.len() > 0,
        forall|i: int| 0 <= i < id.len() ==> !is_space(#[trigger] id[i]) && id[i] != '#',
        id != "fn"@,
        id.last() != ':',
        forall|i: int| 0 <= i < gap.len() ==> is_space(#[trigger] gap[i]),
    ensures
        read_line(id + gap + ":"@) == (LineModel::Label { id }),
{
    reveal_strlit(":");
    reveal_strlit("fn");
    let colon = ":"@;
    let raw = id + gap + colon;
    assert(colon == seq![':']);
    assert forall|i: int| 0 <= i < raw.len() implies raw[i] != '#' by {
        if i < id.len() {
            assert(raw[i] == id[i]);
        } else if i < id.len() + gap.len() {
            assert(raw[i] == gap[i - id.len()]);
        }
    }
    lemma_up_to(raw, '#', raw.len() as int);
    assert(raw.take(raw.len() as int) == raw);
    assert(raw[0] == id[0]);
    assert(raw.last() == ':');
    assert(line_text(raw) == raw);
    assert(without_colons(id) == id);
    if gap.len() == 0 {
        assert(raw == id.push(':'));
        lemma_one_word(raw);
        assert(raw.drop_last() == id);
        assert(without_colons(raw) == id);
        assert(raw != "fn"@);
        assert(seq![raw].drop_last().push(id) == seq![id]);
        assert(header_words(words(raw)) == seq![id]);
    } else {
        law_words_are_separated_by_any_white_space(id, gap, colon);
        lemma_one_word(id);
        lemma_one_word(colon);
        assert(colon.drop_last() == Seq::<char>::empty());
        assert(without_colons(colon) == without_colons(colon.drop_last()));
        assert(without_colons(colon).len() == 0);
        let toks = seq![id, colon];
        assert(words(raw) == toks);
        assert(toks.drop_last() == seq![id]);
        assert(seq![id].drop_last().push(id) == seq![id]);
        assert(header_words(toks) == header_words(seq![id]));
        assert(header_words(seq![id]) == seq![id]);
    }
}

/// What the lines say settles the outcome: texts of equally many lines that say the same, line by
/// line, parse to the same functions or fail with the same message.
pub proof fn law_what_lines_say_settles_the_outcome(a: Seq<char>, b: Seq<char>)
    requires
        lines(a).len() == lines(b).len(),
        forall|i: int|
            0 <= i < lines(a).len() ==> line_text(#[trigger] lines(a)[i]) == line_text(lines(b)[i]),
    ensures
        parse(a) == parse(b),
{
    lemma_parse_from_texts(lines(a), lines(b), 0, nothing());
}

proof fn lemma_parse_from_texts(
    a: Seq<Seq<char>>,
    b: Seq<Seq<char>>,
    at: nat,
    p: ProgressModel,
)
    requires
        a.len() == b.len(),
        forall|i: int| 0 <= i < a.len() ==> line_text(#[trigger] a[i]) == line_text(b[i]),
    ensures
        parse_from(a, at, p) == parse_from(b, at, p),
    decreases a.len() - at,
{
    if at < a.len() {
        assert(line_text(a[at as int]) == line_text(b[at as int]));
        if let StepModel::Next(next) = step(p, read_line(a[at as int])) {
            lemma_parse_from_texts(a, b, at + 1, next);
        }
    }
}

/// Any white space separates words, however much of it there is.
pub proof fn law_words_are_separated_by_any_white_space(a: Seq<char>, gap: Seq<char>, b: Seq<char>)
    requires
        gap.len() > 0,
        forall|i: int| 0 <= i < gap.len() ==> is_space(#[trigger] gap[i]),
    ensures
        words(a + gap + b) == words(a) + words(b),
    decreases a.len(),
{
    let s = a + gap + b;
    if a.len() == 0 {
        assert(s == gap + b);
        lemma_words_after_gap(gap, b);
        assert(words(a) + words(b) == words(b));
    } else if is_space(a[0]) {
        assert(s.drop_first() == a.drop_first() + gap + b);
        law_words_are_separated_by_any_white_space(a.drop_first(), gap, b);
    } else {
        lemma_word_bounds(a);
        lemma_word_before_gap(a, gap + b);
        let n = word(a).len() as int;
        assert(s == a + (gap + b));
        assert(s.skip(n) == a.skip(n) + gap + b);
        law_words_are_separated_by_any_white_space(a.skip(n), gap, b);
        assert(words(a) + words(b) == seq![word(a)] + (words(a.skip(n)) + words(b)));
    }
}

/// White space at the start does not change the words.
pub proof fn lemma_words_after_gap(gap: Seq<char>, b: Seq<char>)
    requires
        forall|i: int| 0 <= i < gap.len() ==> is_space(#[trigger] gap[i]),
    ensures
        words(gap + b) == words(b),
    decreases gap.len(),
{
    if gap.len() > 0 {
        assert((gap + b)[0] == gap[0]);
        assert((gap + b).drop_first() == gap.drop_first() + b);
        lemma_words_after_gap(gap.drop_first(), b);
    } else {
        assert(gap + b == b);
    }
}

proof fn lemma_word_before_gap(a: Seq<char>, tail: Seq<char>)
    requires
        tail.len() > 0,
        is_space(tail[0]),
    ensures
        word(a + tail) == word(a),
    decreases a.len(),
{
    if a.len() > 0 {
        assert((a + tail).drop_first() == a.drop_first() + tail);
        lemma_word_before_gap(a.drop_first(), tail);
    } else {
        assert((a + tail)[0] == tail[0]);
    }
}

/// How what a line says relates to its words.
pub proof fn lemma_text_and_words(raw: Seq<char>)
    ensures
        line_text(raw).len() == 0 <==> words(line_text(raw)).len() == 0,
        line_text(raw).len() > 0 ==> words(line_text(raw)).last().len() > 0
            && words(line_text(raw)).last().last() == line_text(raw).last(),
{
    let s = trim_start(up_to(raw, '#'));
    let text = trim_end(s);
    lemma_trim_start(up_to(raw, '#'));
    lemma_trim_end(s);
    if text.len() > 0 {
        assert(text[0] == s[0]);
        lemma_last_word(text);
    }
}

/// What does not end in white space ends in its last word.
proof fn lemma_last_word(s: Seq<char>)
    requires
        s.len() > 0,
        !is_space(s.last()),
    ensures
        words(s).len() > 0,
        words(s).last().len() > 0,
        words(s).last().last() == s.last(),
    decreases s.len(),
{
    if is_space(s[0]) {
        assert(s.drop_first().last() == s.last());
        lemma_last_word(s.drop_first());
    } else {
        lemma_word_bounds(s);
        let n = word(s).len() as int;
        let rest = s.skip(n);
        assert(words(s) == seq![word(s)] + words(rest));
        if n < s.len() {
            assert(rest.last() == s.last());
            lemma_last_word(rest);
            assert(words(s).last() == words(rest).last());
        } else {
            assert(rest.len() == 0);
            assert(words(s).last() == word(s));
            assert(s.take(n) == s);
        }
    }
}

} // verus!
