//! The forms of a line.
//!
//! One line is one form; `#` starts a comment.
//!
//! ```text
//! fn NAME                            begins a function
//! bbN:                               begins a basic block; white space may precede the colon
//! LOCAL = acquire KIND               guard acquisition
//! drop LOCAL                         guard drop
//! storage_dead LOCAL                 the same
//! call SYMBOL -> bbN                 FFI call
//! drop_call LOCAL -> bbN             core::mem::drop
//! forget_call LOCAL -> bbN           core::mem::forget
//! try LOCAL = KIND -> bbSucc bbFail  conditional acquire
//! goto bbN                           branch
//! ret                                return
//! ```

use crate::ir::{guard_kind, GuardKind, Stmt, StmtModel, Term, TermModel};
use crate::scan::{
    lemma_words_of_text, line_text, split_words, strings_view, text_bounds, words,
};
use crate::text::{chars_of, same_text, text_of};
use vstd::prelude::*;

verus! {

/// What a line is.
pub enum Line {
    /// Nothing but white space and comment.
    Blank,
    /// The header of a function.
    Function { name: String },
    /// The header of a function, without the name.
    Nameless,
    /// The header of a block.
    Label { id: String },
    /// A statement.
    Stmt(Stmt),
    /// A terminator.
    Term(Term),
    /// Something else: what is wrong with it.
    Fault(String),
    /// A statement or terminator that stops before its last operand.
    Truncated,
}

/// The model of a [`Line`].
pub enum LineModel {
    Blank,
    Function { name: Seq<char> },
    Nameless,
    Label { id: Seq<char> },
    Stmt(StmtModel),
    Term(TermModel),
    Fault(Seq<char>),
    Truncated,
}

impl View for Line {
    type V = LineModel;

    open spec fn view(&self) -> LineModel {
        match self {
            Line::Blank => LineModel::Blank,
            Line::Function { name } => LineModel::Function { name: name@ },
            Line::Nameless => LineModel::Nameless,
            Line::Label { id } => LineModel::Label { id: id@ },
            Line::Stmt(stmt) => LineModel::Stmt(stmt@),
            Line::Term(term) => LineModel::Term(term@),
            Line::Fault(complaint) => LineModel::Fault(complaint@),
            Line::Truncated => LineModel::Truncated,
        }
    }
}

/// `s` without the colons at its end.
pub open spec fn without_colons(s: Seq<char>) -> Seq<char>
    decreases s.len(),
{
    if s.len() > 0 && s.last() == ':' {
        without_colons(s.drop_last())
    } else {
        s
    }
}

/// Where `->` first stands among the words, or how many words there are.
pub open spec fn arrow(toks: Seq<Seq<char>>) -> nat
    decreases toks.len(),
{
    if toks.len() == 0 || toks[0] == "->"@ {
        0
    } else {
        1 + arrow(toks.drop_first())
    }
}

/// Words with a space between each two.
pub open spec fn spaced(toks: Seq<Seq<char>>) -> Seq<char>
    decreases toks.len(),
{
    if toks.len() == 0 {
        seq![]
    } else if toks.len() == 1 {
        toks[0]
    } else {
        spaced(toks.drop_last()) + " "@ + toks.last()
    }
}

/// The words of a block header without the colons at their end. A last word of nothing but colons
/// goes altogether.
pub open spec fn header_words(toks: Seq<Seq<char>>) -> Seq<Seq<char>>
    decreases toks.len(),
{
    if toks.len() == 0 {
        seq![]
    } else if without_colons(toks.last()).len() == 0 {
        header_words(toks.drop_last())
    } else {
        toks.drop_last().push(without_colons(toks.last()))
    }
}

/// A form with one operand.
pub open spec fn with_operand(toks: Seq<Seq<char>>, line: LineModel) -> LineModel {
    if toks.len() > 1 {
        line
    } else {
        LineModel::Truncated
    }
}

/// A form with an arrow and a target behind it.
pub open spec fn with_target(
    toks: Seq<Seq<char>>,
    no_arrow: Seq<char>,
    line: LineModel,
) -> LineModel {
    if arrow(toks) >= toks.len() {
        LineModel::Fault(no_arrow)
    } else if arrow(toks) + 1 >= toks.len() {
        LineModel::Truncated
    } else {
        line
    }
}

/// `try LOCAL = KIND -> bbSucc bbFail`.
pub open spec fn read_try(toks: Seq<Seq<char>>) -> LineModel {
    let at = arrow(toks) as int;
    if toks.len() <= 2 || toks[2] != "="@ {
        LineModel::Fault("try syntax: try LOCAL = KIND -> succ fail"@)
    } else if at >= toks.len() {
        LineModel::Fault("try needs ->"@)
    } else if toks.len() <= 3 || at + 1 >= toks.len() {
        LineModel::Truncated
    } else if at + 2 >= toks.len() {
        LineModel::Fault("try needs fail target"@)
    } else {
        LineModel::Term(
            TermModel::TryAcquire {
                local: toks[1],
                kind: guard_kind(toks[3]),
                success: toks[at + 1],
                fail: toks[at + 2],
            },
        )
    }
}

/// The forms inside a block, by their words.
pub open spec fn read_body(toks: Seq<Seq<char>>) -> LineModel {
    let target = toks[arrow(toks) as int + 1];
    if toks.len() >= 3 && toks[1] == "="@ && toks[2] == "acquire"@ {
        if toks.len() > 3 {
            LineModel::Stmt(StmtModel::Acquire { local: toks[0], kind: guard_kind(toks[3]) })
        } else {
            LineModel::Fault("acquire needs a kind"@)
        }
    } else if toks[0] == "drop"@ {
        with_operand(toks, LineModel::Stmt(StmtModel::Drop { local: toks[1] }))
    } else if toks[0] == "storage_dead"@ {
        with_operand(toks, LineModel::Stmt(StmtModel::StorageDead { local: toks[1] }))
    } else if toks[0] == "goto"@ {
        with_operand(toks, LineModel::Term(TermModel::Goto { target: toks[1] }))
    } else if toks[0] == "ret"@ {
        LineModel::Term(TermModel::Ret)
    } else if toks[0] == "call"@ {
        let symbol = spaced(toks.subrange(1, arrow(toks) as int));
        with_target(toks, "call needs ->"@, LineModel::Term(TermModel::Call { symbol, target }))
    } else if toks[0] == "drop_call"@ {
        with_target(
            toks,
            "drop_call needs ->"@,
            LineModel::Term(TermModel::MemDrop { local: toks[1], target }),
        )
    } else if toks[0] == "forget_call"@ {
        with_target(
            toks,
            "forget_call needs ->"@,
            LineModel::Term(TermModel::MemForget { local: toks[1], target }),
        )
    } else if toks[0] == "try"@ {
        read_try(toks)
    } else {
        LineModel::Fault("unrecognised statement"@)
    }
}

/// The form of a line that says `text`.
pub open spec fn read_text(text: Seq<char>) -> LineModel {
    let toks = words(text);
    if text.len() == 0 {
        LineModel::Blank
    } else if toks[0] == "fn"@ {
        if toks.len() > 1 {
            LineModel::Function { name: toks[1] }
        } else {
            LineModel::Nameless
        }
    } else if text.last() == ':' {
        LineModel::Label { id: spaced(header_words(toks)) }
    } else {
        read_body(toks)
    }
}

/// The form of a line.
pub open spec fn read_line(raw: Seq<char>) -> LineModel {
    read_text(line_text(raw))
}

/// Where `->` first stands.
proof fn lemma_arrow(toks: Seq<Seq<char>>, n: int)
    requires
        0 <= n <= toks.len(),
        forall|i: int| 0 <= i < n ==> toks[i] != "->"@,
        n < toks.len() ==> toks[n] == "->"@,
    ensures
        arrow(toks) == n,
    decreases n,
{
    if n > 0 {
        lemma_arrow(toks.drop_first(), n - 1);
    }
}

/// Finds the first `->`.
fn find_arrow(toks: &Vec<String>) -> (at: usize)
    ensures
        at == arrow(strings_view(toks@)),
        at <= toks@.len(),
        toks@.len() > 0 && toks@[0]@ != "->"@ ==> at > 0,
{
    let mut at: usize = 0;
    while at < toks.len() && !same_text(toks[at].as_str(), "->")
        invariant
            at <= toks@.len(),
            forall|i: int| 0 <= i < at ==> (#[trigger] toks@[i])@ != "->"@,
        decreases toks@.len() - at,
    {
        at = at + 1;
    }
    proof {
        lemma_arrow(strings_view(toks@), at as int);
    }
    at
}

/// Joins `toks[from..to]` with spaces.
fn join_words(toks: &Vec<String>, from: usize, to: usize) -> (joined: String)
    requires
        from <= to <= toks@.len(),
    ensures
        joined@ == spaced(strings_view(toks@).subrange(from as int, to as int)),
{
    let ghost all = strings_view(toks@);
    let mut joined = String::new();
    let mut i: usize = from;
    while i < to
        invariant
            from <= i <= to <= toks@.len(),
            all == strings_view(toks@),
            joined@ == spaced(all.subrange(from as int, i as int)),
        decreases to - i,
    {
        proof {
            let longer = all.subrange(from as int, i as int + 1);
            assert(longer.drop_last() == all.subrange(from as int, i as int));
            assert(longer.last() == toks@[i as int]@);
        }
        if i > from {
            joined.append(" ");
        }
        joined.append(toks[i].as_str());
        i = i + 1;
    }
    joined
}

/// A complaint.
fn fault(complaint: &str) -> (line: Line)
    ensures
        line@ == LineModel::Fault(complaint@),
{
    Line::Fault(complaint.to_owned())
}

/// Reads `try LOCAL = KIND -> bbSucc bbFail`.
fn parse_try(toks: &Vec<String>) -> (line: Line)
    requires
        toks@.len() > 0,
    ensures
        line@ == read_try(strings_view(toks@)),
{
    if toks.len() <= 2 || !same_text(toks[2].as_str(), "=") {
        return fault("try syntax: try LOCAL = KIND -> succ fail");
    }
    let at = find_arrow(toks);
    if at >= toks.len() {
        return fault("try needs ->");
    }
    if toks.len() <= 3 || at + 1 >= toks.len() {
        return Line::Truncated;
    }
    if at + 2 >= toks.len() {
        return fault("try needs fail target");
    }
    Line::Term(
        Term::TryAcquire {
            local: toks[1].clone(),
            kind: GuardKind::from_acquire_name(toks[3].as_str()),
            success: toks[at + 1].clone(),
            fail: toks[at + 2].clone(),
        },
    )
}

/// Reads a form inside a block.
fn parse_body(toks: &Vec<String>) -> (line: Line)
    requires
        toks@.len() > 0,
    ensures
        line@ == read_body(strings_view(toks@)),
{
    if toks.len() >= 3 && same_text(toks[1].as_str(), "=") && same_text(
        toks[2].as_str(),
        "acquire",
    ) {
        if toks.len() > 3 {
            return Line::Stmt(
                Stmt::Acquire {
                    local: toks[0].clone(),
                    kind: GuardKind::from_acquire_name(toks[3].as_str()),
                },
            );
        }
        return fault("acquire needs a kind");
    }
    let head = toks[0].as_str();
    if same_text(head, "drop") {
        if toks.len() > 1 {
            Line::Stmt(Stmt::Drop { local: toks[1].clone() })
        } else {
            Line::Truncated
        }
    } else if same_text(head, "storage_dead") {
        if toks.len() > 1 {
            Line::Stmt(Stmt::StorageDead { local: toks[1].clone() })
        } else {
            Line::Truncated
        }
    } else if same_text(head, "goto") {
        if toks.len() > 1 {
            Line::Term(Term::Goto { target: toks[1].clone() })
        } else {
            Line::Truncated
        }
    } else if same_text(head, "ret") {
        Line::Term(Term::Ret)
    } else if same_text(head, "call") {
        proof {
            lemma_keywords();
        }
        let at = find_arrow(toks);
        if at >= toks.len() {
            fault("call needs ->")
        } else if at + 1 >= toks.len() {
            Line::Truncated
        } else {
            Line::Term(
                Term::Call { symbol: join_words(toks, 1, at), target: toks[at + 1].clone() },
            )
        }
    } else if same_text(head, "drop_call") {
        proof {
            lemma_keywords();
        }
        let at = find_arrow(toks);
        if at >= toks.len() {
            fault("drop_call needs ->")
        } else if at + 1 >= toks.len() {
            Line::Truncated
        } else {
            Line::Term(Term::MemDrop { local: toks[1].clone(), target: toks[at + 1].clone() })
        }
    } else if same_text(head, "forget_call") {
        proof {
            lemma_keywords();
        }
        let at = find_arrow(toks);
        if at >= toks.len() {
            fault("forget_call needs ->")
        } else if at + 1 >= toks.len() {
            Line::Truncated
        } else {
            Line::Term(Term::MemForget { local: toks[1].clone(), target: toks[at + 1].clone() })
        }
    } else if same_text(head, "try") {
        parse_try(toks)
    } else {
        fault("unrecognised statement")
    }
}

/// Cuts the colons at the end of a word.
fn cut_colons(word: &str) -> (cut: String)
    ensures
        cut@ == without_colons(word@),
{
    let chars = chars_of(word);
    let mut end: usize = chars.len();
    assert(chars@.subrange(0, end as int) == word@);
    while end > 0 && chars[end - 1] == ':'
        invariant
            end <= chars@.len(),
            without_colons(chars@.subrange(0, end as int)) == without_colons(word@),
        decreases end,
    {
        proof {
            let s = chars@.subrange(0, end as int);
            assert(s.drop_last() == chars@.subrange(0, end as int - 1));
        }
        end = end - 1;
    }
    text_of(chars.as_slice(), 0, end)
}

/// Reads the header of a block.
fn parse_label(toks: &Vec<String>) -> (line: Line)
    ensures
        line@ == (LineModel::Label { id: spaced(header_words(strings_view(toks@))) }),
{
    let ghost all = strings_view(toks@);
    let mut n: usize = toks.len();
    assert(all.take(n as int) == all);
    while n > 0
        invariant
            n <= toks@.len(),
            all == strings_view(toks@),
            header_words(all.take(n as int)) == header_words(all),
        decreases n,
    {
        let last = cut_colons(toks[n - 1].as_str());
        proof {
            assert(all.take(n as int).drop_last() == all.take(n - 1));
            assert(all.take(n as int).last() == toks@[n - 1]@);
        }
        if !last.as_str().is_empty() {
            let mut id = join_words(toks, 0, n - 1);
            if n > 1 {
                id.append(" ");
            }
            id.append(last.as_str());
            proof {
                let init = all.take(n - 1);
                assert(init.push(last@).drop_last() == init);
                assert(all.subrange(0, n - 1) == init);
                assert(header_words(all) == init.push(last@));
                assert(id@ == spaced(init.push(last@)));
            }
            return Line::Label { id };
        }
        n = n - 1;
    }
    Line::Label { id: String::new() }
}

/// The keywords of calls are not arrows.
proof fn lemma_keywords()
    ensures
        "call"@ != "->"@,
        "drop_call"@ != "->"@,
        "forget_call"@ != "->"@,
{
    reveal_strlit("call");
    reveal_strlit("drop_call");
    reveal_strlit("forget_call");
    reveal_strlit("->");
    assert("call"@.len() != "->"@.len());
    assert("drop_call"@.len() != "->"@.len());
    assert("forget_call"@.len() != "->"@.len());
}

/// Reads the line `chars[from..to]`. The second result is what the line says.
pub fn parse_line(chars: &[char], from: usize, to: usize) -> (read: (Line, String))
    requires
        from <= to <= chars@.len(),
    ensures
        read.0@ == read_line(chars@.subrange(from as int, to as int)),
        read.1@ == line_text(chars@.subrange(from as int, to as int)),
{
    let (start, end) = text_bounds(chars, from, to);
    let text = text_of(chars, start, end);
    if start == end {
        return (Line::Blank, text);
    }
    let toks = split_words(chars, start, end);
    proof {
        lemma_words_of_text(chars@.subrange(from as int, to as int));
        assert(strings_view(toks@).len() == toks@.len());
    }
    let line = if same_text(toks[0].as_str(), "fn") {
        if toks.len() > 1 {
            Line::Function { name: toks[1].clone() }
        } else {
            Line::Nameless
        }
    } else if chars[end - 1] == ':' {
        parse_label(&toks)
    } else {
        parse_body(&toks)
    };
    (line, text)
}

} // verus!
