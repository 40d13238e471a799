//! How a text is read: what its lines are, what a line says, what its words are, and which form
//! they make.

use crate::grammar::{arrow, header_words, read_line, spaced, without_colons, LineModel};
use crate::ir::{guard_kind, StmtModel, TermModel};
use crate::layout::{
    lemma_one_word, lemma_text_and_words, lemma_up_to_stop, lemma_words_after_gap,
};
use crate::scan::{is_space, lemma_up_to, line_text, lines, trim_end, trim_start, words};
use vstd::prelude::*;

verus! {

/// A newline ends a line, and what follows it is read by itself.
pub proof fn law_newline_ends_a_line(a: Seq<char>, rest: Seq<char>)
    requires
        !a.contains('\n'),
    ensures
        lines(a + seq!['\n'] + rest) == seq![a] + lines(rest),
{
    let s = a + seq!['\n'] + rest;
    let n = a.len() as int;
    assert forall|i: int| 0 <= i < n implies s[i] != '\n' by {
        assert(a.contains(a[i]));
        assert(s[i] == a[i]);
    }
    assert(s[n] == '\n');
    lemma_up_to(s, '\n', n);
    assert(s.take(n) == a);
    assert(s.skip(n + 1) == rest);
}

/// What follows the last newline is a line too, unless it is empty.
pub proof fn law_last_line_needs_no_newline(a: Seq<char>)
    requires
        !a.contains('\n'),
    ensures
        lines(a) == if a.len() == 0 {
            seq![]
        } else {
            seq![a]
        },
{
    let n = a.len() as int;
    assert forall|i: int| 0 <= i < n implies a[i] != '\n' by {
        assert(a.contains(a[i]));
    }
    lemma_up_to(a, '\n', n);
    assert(a.take(n) == a);
}

/// A line says what stands between the white space around it.
pub proof fn law_white_space_around_is_cut(before: Seq<char>, s: Seq<char>, after: Seq<char>)
    requires
        forall|i: int| 0 <= i < before.len() ==> is_space(#[trigger] before[i]),
        forall|i: int| 0 <= i < after.len() ==> is_space(#[trigger] after[i]),
        !s.contains('#'),
        s.len() > 0 ==> !is_space(s[0]) && !is_space(s.last()),
    ensures
        line_text(before + s + after) == s,
{
    let raw = before + s + after;
    assert forall|i: int| 0 <= i < raw.len() implies raw[i] != '#' by {
        if i < before.len() {
            assert(raw[i] == before[i]);
        } else if i < before.len() + s.len() {
            assert(s.contains(s[i - before.len()]));
        } else {
            assert(raw[i] == after[i - before.len() - s.len()]);
        }
    }
    lemma_up_to(raw, '#', raw.len() as int);
    assert(raw.take(raw.len() as int) == raw);
    if s.len() == 0 {
        let gap = before + after;
        assert(raw == gap);
        assert forall|i: int| 0 <= i < gap.len() implies is_space(#[trigger] gap[i]) by {
            if i >= before.len() {
                assert(gap[i] == after[i - before.len()]);
            }
        }
        lemma_trim_start_gap(gap, Seq::empty());
        assert(gap + Seq::<char>::empty() == gap);
        assert(trim_start(Seq::<char>::empty()) == Seq::<char>::empty());
        assert(s == Seq::<char>::empty());
    } else {
        assert(raw == before + (s + after));
        lemma_trim_start_gap(before, s + after);
        assert((s + after)[0] == s[0]);
        lemma_trim_end_gap(s, after);
    }
}

proof fn lemma_trim_start_gap(gap: Seq<char>, s: Seq<char>)
    requires
        forall|i: int| 0 <= i < gap.len() ==> is_space(#[trigger] gap[i]),
    ensures
        trim_start(gap + s) == trim_start(s),
    decreases gap.len(),
{
    if gap.len() > 0 {
        assert((gap + s)[0] == gap[0]);
        assert((gap + s).drop_first() == gap.drop_first() + s);
        lemma_trim_start_gap(gap.drop_first(), s);
    } else {
        assert(gap + s == s);
    }
}

proof fn lemma_trim_end_gap(s: Seq<char>, gap: Seq<char>)
    requires
        s.len() > 0,
        !is_space(s.last()),
        forall|i: int| 0 <= i < gap.len() ==> is_space(#[trigger] gap[i]),
    ensures
        trim_end(s + gap) == s,
    decreases gap.len(),
{
    if gap.len() > 0 {
        assert((s + gap).last() == gap[gap.len() - 1]);
        assert((s + gap).drop_last() == s + gap.drop_last());
        lemma_trim_end_gap(s, gap.drop_last());
    } else {
        assert(s + gap == s);
    }
}

/// What follows `#` is no part of what a line says.
pub proof fn law_comment_says_nothing(raw: Seq<char>, comment: Seq<char>)
    ensures
        line_text(raw + seq!['#'] + comment) == line_text(raw),
{
    lemma_up_to_stop(raw, comment, '#');
}

/// A text without white space is one word, and white space alone has no words.
pub proof fn law_words_are_runs_without_white_space(s: Seq<char>, gap: Seq<char>)
    requires
        s.len() > 0,
        forall|i: int| 0 <= i < s.len() ==> !is_space(#[trigger] s[i]),
        forall|i: int| 0 <= i < gap.len() ==> is_space(#[trigger] gap[i]),
    ensures
        words(s) == seq![s],
        words(gap) == Seq::<Seq<char>>::empty(),
{
    lemma_one_word(s);
    lemma_words_after_gap(gap, Seq::empty());
    assert(gap + Seq::<char>::empty() == gap);
}

/// Words are joined with one space between each two.
pub proof fn law_joined_words(a: Seq<Seq<char>>, b: Seq<Seq<char>>, w: Seq<char>)
    ensures
        spaced(Seq::empty()) == Seq::<char>::empty(),
        spaced(seq![w]) == w,
        a.len() > 0 && b.len() > 0 ==> spaced(a + b) == spaced(a) + seq![' '] + spaced(b),
    decreases b.len(),
{
    reveal_strlit(" ");
    assert(" "@ == seq![' ']);
    if a.len() > 0 && b.len() > 0 {
        let init = b.drop_last();
        assert((a + b).drop_last() == a + init);
        assert((a + b).last() == b.last());
        if b.len() == 1 {
            assert(a + init == a);
            assert(spaced(b) == b[0]);
        } else {
            law_joined_words(a, init, w);
            assert(spaced(a + b) == spaced(a) + seq![' '] + spaced(b));
        }
    }
}

/// A line is blank if and only if it has no words.
pub proof fn law_blank_line(raw: Seq<char>)
    ensures
        read_line(raw) == LineModel::Blank <==> words(line_text(raw)).len() == 0,
{
    lemma_text_and_words(raw);
}

/// `fn NAME` begins a function of that name, whatever follows; `fn` alone lacks the name.
pub proof fn law_function_header(raw: Seq<char>)
    requires
        words(line_text(raw)).len() > 0,
        words(line_text(raw))[0] == "fn"@,
    ensures
        words(line_text(raw)).len() == 1 ==> read_line(raw) == LineModel::Nameless,
        words(line_text(raw)).len() > 1 ==> read_line(raw) == (LineModel::Function {
            name: words(line_text(raw))[1],
        }),
{
    lemma_text_and_words(raw);
}

/// Nothing but colons.
pub open spec fn all_colons(s: Seq<char>) -> bool {
    forall|i: int| 0 <= i < s.len() ==> #[trigger] s[i] == ':'
}

proof fn lemma_without_colons(w: Seq<char>, colons: Seq<char>)
    requires
        all_colons(colons),
        w.len() > 0 ==> w.last() != ':',
    ensures
        without_colons(w + colons) == w,
    decreases colons.len(),
{
    let s = w + colons;
    if colons.len() > 0 {
        let fewer = colons.drop_last();
        assert(s.last() == colons[colons.len() - 1]);
        assert(s.drop_last() == w + fewer);
        assert forall|i: int| 0 <= i < fewer.len() implies #[trigger] fewer[i] == ':' by {
            assert(fewer[i] == colons[i]);
        }
        lemma_without_colons(w, fewer);
    } else {
        assert(s == w);
    }
}

proof fn lemma_header_words(
    init: Seq<Seq<char>>,
    w: Seq<char>,
    colons: Seq<char>,
    tail: Seq<Seq<char>>,
)
    requires
        w.len() > 0,
        w.last() != ':',
        all_colons(colons),
        forall|i: int| 0 <= i < tail.len() ==> all_colons(#[trigger] tail[i]),
    ensures
        header_words(init.push(w + colons) + tail) == init.push(w),
    decreases tail.len(),
{
    let toks = init.push(w + colons) + tail;
    if tail.len() == 0 {
        assert(toks == init.push(w + colons));
        assert(toks.drop_last() == init);
        lemma_without_colons(w, colons);
    } else {
        let last = tail[tail.len() - 1];
        let fewer = tail.drop_last();
        assert(toks.last() == last);
        assert(toks.drop_last() == init.push(w + colons) + fewer);
        assert(all_colons(last));
        lemma_without_colons(Seq::empty(), last);
        assert(Seq::<char>::empty() + last == last);
        assert forall|i: int| 0 <= i < fewer.len() implies all_colons(#[trigger] fewer[i]) by {
            assert(fewer[i] == tail[i]);
        }
        lemma_header_words(init, w, colons, fewer);
    }
}

/// A line that ends in a colon and does not begin with `fn` is the header of the block that its
/// words name, without the colons at their end.
pub proof fn law_block_header(
    raw: Seq<char>,
    init: Seq<Seq<char>>,
    w: Seq<char>,
    colons: Seq<char>,
    tail: Seq<Seq<char>>,
)
    requires
        words(line_text(raw)) == init.push(w + colons) + tail,
        words(line_text(raw))[0] != "fn"@,
        w.len() > 0,
        w.last() != ':',
        all_colons(colons),
        forall|i: int|
            0 <= i < tail.len() ==> all_colons(#[trigger] tail[i]) && tail[i].len() > 0,
        colons.len() > 0 || tail.len() > 0,
    ensures
        read_line(raw) == (LineModel::Label { id: spaced(init.push(w)) }),
{
    lemma_text_and_words(raw);
    lemma_header_words(init, w, colons, tail);
    let toks = words(line_text(raw));
    if tail.len() > 0 {
        let last = tail[tail.len() - 1];
        assert(toks.last() == last);
        assert(last[last.len() - 1] == ':');
    } else {
        assert(toks.last() == w + colons);
        assert((w + colons).last() == colons[colons.len() - 1]);
    }
}

/// A line of nothing but colons is a block header with the empty identifier.
pub proof fn law_header_of_colons(raw: Seq<char>)
    requires
        words(line_text(raw)).len() > 0,
        forall|i: int|
            0 <= i < words(line_text(raw)).len() ==> all_colons(
                #[trigger] words(line_text(raw))[i],
            ),
    ensures
        read_line(raw) == (LineModel::Label { id: Seq::empty() }),
{
    let toks = words(line_text(raw));
    lemma_text_and_words(raw);
    lemma_header_of_colons(toks);
    assert(all_colons(toks[0]));
    assert(toks[0] != "fn"@) by {
        reveal_strlit("fn");
        if toks[0] == "fn"@ {
            assert(toks[0][0] == 'f');
        }
    }
    let last = toks[toks.len() - 1];
    assert(all_colons(last));
    assert(last[last.len() - 1] == ':');
}

proof fn lemma_header_of_colons(toks: Seq<Seq<char>>)
    requires
        forall|i: int| 0 <= i < toks.len() ==> all_colons(#[trigger] toks[i]),
    ensures
        header_words(toks) == Seq::<Seq<char>>::empty(),
    decreases toks.len(),
{
    if toks.len() > 0 {
        let last = toks[toks.len() - 1];
        assert(all_colons(last));
        lemma_without_colons(Seq::empty(), last);
        assert(Seq::<char>::empty() + last == last);
        let fewer = toks.drop_last();
        assert forall|i: int| 0 <= i < fewer.len() implies all_colons(#[trigger] fewer[i]) by {
            assert(fewer[i] == toks[i]);
        }
        lemma_header_of_colons(fewer);
    }
}

/// A line with the words `toks` that is neither a function header nor a block header.
pub open spec fn is_body(raw: Seq<char>, toks: Seq<Seq<char>>) -> bool {
    &&& words(line_text(raw)) == toks
    &&& toks.len() > 0
    &&& toks[0] != "fn"@
    &&& toks.last().last() != ':'
}

/// Words that begin like `LOCAL = acquire KIND`.
pub open spec fn is_acquire(toks: Seq<Seq<char>>) -> bool {
    toks.len() >= 3 && toks[1] == "="@ && toks[2] == "acquire"@
}

/// Word `at` is the first `->`.
pub open spec fn first_arrow(toks: Seq<Seq<char>>, at: int) -> bool {
    &&& 0 <= at < toks.len()
    &&& toks[at] == "->"@
    &&& forall|j: int| 0 <= j < at ==> #[trigger] toks[j] != "->"@
}

proof fn lemma_first_arrow(toks: Seq<Seq<char>>, at: int)
    requires
        first_arrow(toks, at),
    ensures
        arrow(toks) == at,
    decreases toks.len(),
{
    if at > 0 {
        let rest = toks.drop_first();
        assert(toks[0] != "->"@);
        assert(rest[at - 1] == toks[at]);
        assert forall|j: int| 0 <= j < at - 1 implies #[trigger] rest[j] != "->"@ by {
            assert(rest[j] == toks[j + 1]);
        }
        lemma_first_arrow(rest, at - 1);
    }
}

proof fn lemma_no_arrow(toks: Seq<Seq<char>>)
    requires
        !toks.contains("->"@),
    ensures
        arrow(toks) == toks.len(),
    decreases toks.len(),
{
    if toks.len() > 0 {
        let rest = toks.drop_first();
        assert(toks.contains(toks[0]));
        assert(!rest.contains("->"@)) by {
            if rest.contains("->"@) {
                let i = choose|i: int| 0 <= i < rest.len() && rest[i] == "->"@;
                assert(toks[i + 1] == "->"@);
            }
        }
        lemma_no_arrow(rest);
    }
}

/// `LOCAL = acquire KIND` acquires a guard of the kind that the name stands for.
pub proof fn law_acquire_statement(raw: Seq<char>, toks: Seq<Seq<char>>)
    requires
        is_body(raw, toks),
        is_acquire(toks),
    ensures
        toks.len() == 3 ==> read_line(raw) == LineModel::Fault("acquire needs a kind"@),
        toks.len() > 3 ==> read_line(raw) == LineModel::Stmt(
            StmtModel::Acquire { local: toks[0], kind: guard_kind(toks[3]) },
        ),
{
    lemma_text_and_words(raw);
}

/// The literals by which lines are told apart are different.
proof fn lemma_keywords_differ()
    ensures
        "drop"@ != "storage_dead"@,
        "drop"@ != "goto"@,
        "storage_dead"@ != "goto"@,
        "ret"@ != "drop"@,
        "ret"@ != "storage_dead"@,
        "ret"@ != "goto"@,
        forall|w: Seq<char>|
            #![trigger w.len()]
            w == "call"@ || w == "drop_call"@ || w == "forget_call"@ || w == "try"@ ==> w
                != "drop"@ && w != "storage_dead"@ && w != "goto"@ && w != "ret"@ && w != "->"@,
        "call"@ != "drop_call"@,
        "call"@ != "forget_call"@,
        "call"@ != "try"@,
        "drop_call"@ != "forget_call"@,
        "drop_call"@ != "try"@,
        "forget_call"@ != "try"@,
{
    reveal_strlit("drop");
    reveal_strlit("storage_dead");
    reveal_strlit("goto");
    reveal_strlit("ret");
    reveal_strlit("call");
    reveal_strlit("drop_call");
    reveal_strlit("forget_call");
    reveal_strlit("try");
    reveal_strlit("->");
    assert("drop"@[0] == 'd' && "goto"@[0] == 'g' && "call"@[0] == 'c');
    assert("ret"@[0] == 'r' && "try"@[0] == 't');
    assert("drop"@.len() == 4 && "goto"@.len() == 4 && "call"@.len() == 4);
    assert("ret"@.len() == 3 && "try"@.len() == 3 && "->"@.len() == 2);
    assert("storage_dead"@.len() == 12 && "drop_call"@.len() == 9 && "forget_call"@.len() == 11);
}

/// `drop`, `storage_dead` and `goto` take the word behind them; `ret` takes nothing.
pub proof fn law_simple_forms(raw: Seq<char>, toks: Seq<Seq<char>>)
    requires
        is_body(raw, toks),
        !is_acquire(toks),
    ensures
        toks[0] == "drop"@ && toks.len() > 1 ==> read_line(raw) == LineModel::Stmt(
            StmtModel::Drop { local: toks[1] },
        ),
        toks[0] == "storage_dead"@ && toks.len() > 1 ==> read_line(raw) == LineModel::Stmt(
            StmtModel::StorageDead { local: toks[1] },
        ),
        toks[0] == "goto"@ && toks.len() > 1 ==> read_line(raw) == LineModel::Term(
            TermModel::Goto { target: toks[1] },
        ),
        toks[0] == "ret"@ ==> read_line(raw) == LineModel::Term(TermModel::Ret),
        (toks[0] == "drop"@ || toks[0] == "storage_dead"@ || toks[0] == "goto"@) && toks.len() == 1
            ==> read_line(raw) == LineModel::Truncated,
{
    lemma_text_and_words(raw);
    lemma_keywords_differ();
}

/// `call`, `drop_call` and `forget_call` lead to the word behind the first `->`. The callee is all
/// that stands between `call` and `->`; the guard is the first word behind the keyword.
pub proof fn law_call_forms(raw: Seq<char>, toks: Seq<Seq<char>>, at: int)
    requires
        is_body(raw, toks),
        !is_acquire(toks),
        first_arrow(toks, at),
        at + 1 < toks.len(),
    ensures
        toks[0] == "call"@ ==> read_line(raw) == LineModel::Term(
            TermModel::Call { symbol: spaced(toks.subrange(1, at)), target: toks[at + 1] },
        ),
        toks[0] == "drop_call"@ ==> read_line(raw) == LineModel::Term(
            TermModel::MemDrop { local: toks[1], target: toks[at + 1] },
        ),
        toks[0] == "forget_call"@ ==> read_line(raw) == LineModel::Term(
            TermModel::MemForget { local: toks[1], target: toks[at + 1] },
        ),
{
    lemma_text_and_words(raw);
    lemma_keywords_differ();
    lemma_first_arrow(toks, at);
    assert(toks[0].len() >= 0);
}

/// A call without `->` is wrong, and one without a word behind it stops too early.
pub proof fn law_call_faults(raw: Seq<char>, toks: Seq<Seq<char>>)
    requires
        is_body(raw, toks),
        !is_acquire(toks),
    ensures
        toks[0] == "call"@ && !toks.contains("->"@) ==> read_line(raw) == LineModel::Fault(
            "call needs ->"@,
        ),
        toks[0] == "drop_call"@ && !toks.contains("->"@) ==> read_line(raw) == LineModel::Fault(
            "drop_call needs ->"@,
        ),
        toks[0] == "forget_call"@ && !toks.contains("->"@) ==> read_line(raw) == LineModel::Fault(
            "forget_call needs ->"@,
        ),
        (toks[0] == "call"@ || toks[0] == "drop_call"@ || toks[0] == "forget_call"@)
            && first_arrow(toks, toks.len() - 1) ==> read_line(raw) == LineModel::Truncated,
{
    lemma_text_and_words(raw);
    lemma_keywords_differ();
    assert(toks[0].len() >= 0);
    if !toks.contains("->"@) {
        lemma_no_arrow(toks);
    }
    if first_arrow(toks, toks.len() - 1) {
        lemma_first_arrow(toks, toks.len() - 1);
    }
}

/// `try LOCAL = KIND -> bbSucc bbFail` is a conditional acquire; without its parts it is wrong, or
/// stops too early.
pub proof fn law_try_form(raw: Seq<char>, toks: Seq<Seq<char>>, at: int)
    requires
        is_body(raw, toks),
        !is_acquire(toks),
        toks[0] == "try"@,
    ensures
        toks.len() < 3 || toks[2] != "="@ ==> read_line(raw) == LineModel::Fault(
            "try syntax: try LOCAL = KIND -> succ fail"@,
        ),
        toks.len() >= 3 && toks[2] == "="@ && !toks.contains("->"@) ==> read_line(raw)
            == LineModel::Fault("try needs ->"@),
        toks.len() >= 3 && toks[2] == "="@ && first_arrow(toks, at) ==> {
            &&& toks.len() == 3 || at + 1 == toks.len() ==> read_line(raw) == LineModel::Truncated
            &&& toks.len() > 3 && at + 2 == toks.len() ==> read_line(raw) == LineModel::Fault(
                "try needs fail target"@,
            )
            &&& toks.len() > 3 && at + 2 < toks.len() ==> read_line(raw) == LineModel::Term(
                TermModel::TryAcquire {
                    local: toks[1],
                    kind: guard_kind(toks[3]),
                    success: toks[at + 1],
                    fail: toks[at + 2],
                },
            )
        },
{
    lemma_text_and_words(raw);
    lemma_keywords_differ();
    assert(toks[0].len() >= 0);
    if !toks.contains("->"@) {
        lemma_no_arrow(toks);
    }
    if first_arrow(toks, at) {
        lemma_first_arrow(toks, at);
    }
}

/// A line that begins with no keyword, and is no acquisition, is not recognised.
pub proof fn law_unrecognised_statement(raw: Seq<char>, toks: Seq<Seq<char>>)
    requires
        is_body(raw, toks),
        !is_acquire(toks),
        !seq![
            "call"@,
            "drop"@,
            "drop_call"@,
            "forget_call"@,
            "goto"@,
            "ret"@,
            "storage_dead"@,
            "try"@,
        ].contains(toks[0]),
    ensures
        read_line(raw) == LineModel::Fault("unrecognised statement"@),
{
    lemma_text_and_words(raw);
    let keywords = seq![
        "call"@,
        "drop"@,
        "drop_call"@,
        "forget_call"@,
        "goto"@,
        "ret"@,
        "storage_dead"@,
        "try"@,
    ];
    assert(keywords[0] == "call"@ && keywords[1] == "drop"@ && keywords[2] == "drop_call"@);
    assert(keywords[3] == "forget_call"@ && keywords[4] == "goto"@ && keywords[5] == "ret"@);
    assert(keywords[6] == "storage_dead"@ && keywords[7] == "try"@);
}

} // verus!
