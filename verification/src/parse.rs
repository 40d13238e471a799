//! The parser: from program text to functions.

use crate::grammar::{parse_line, read_line, Line, LineModel};
use crate::ir::{Block, BlockModel, Function, FunctionModel, Stmt, StmtModel, Term, TermModel};
use crate::names::NameMap;
use crate::scan::{bounds_lines, line_bounds, line_text, lines};
use crate::text::{append_decimal, chars_of, decimal};
use vstd::prelude::*;

verus! {

/// What has been read so far: the functions that are complete, and the function and the block
/// that are still open.
#[verifier::ext_equal]
pub struct ProgressModel {
    pub done: Seq<FunctionModel>,
    pub function: Option<FunctionModel>,
    pub block: Option<BlockModel>,
}

/// What a line does to what has been read so far.
pub enum StepModel {
    /// Reading goes on.
    Next(ProgressModel),
    /// The line is wrong.
    Stop(Seq<char>),
    /// The line stops before its last operand.
    Truncated,
}

/// What parsing a text comes to.
pub enum OutcomeModel {
    /// The functions of the text.
    Parsed(Seq<FunctionModel>),
    /// The first line that is wrong: its number, what is wrong with it, and what it says.
    Failed { number: nat, complaint: Seq<char>, text: Seq<char> },
    /// A line stops before its last operand, and no line before it is wrong.
    Truncated,
}

/// A function without blocks.
pub open spec fn new_function(name: Seq<char>) -> FunctionModel {
    FunctionModel { name, entry: seq![], blocks: Map::empty(), order: seq![] }
}

/// A block without statements, which returns.
pub open spec fn new_block(id: Seq<char>) -> BlockModel {
    BlockModel { id, stmts: seq![], term: TermModel::Ret }
}

/// The function with its open block, if any, put in.
pub open spec fn with_block(f: FunctionModel, block: Option<BlockModel>) -> FunctionModel {
    match block {
        Some(b) => FunctionModel {
            order: f.order.push(b.id),
            blocks: f.blocks.insert(b.id, b),
            ..f
        },
        None => f,
    }
}

/// The function with its entry settled: the first block whose identifier is not empty.
pub open spec fn with_entry(f: FunctionModel, id: Seq<char>) -> FunctionModel {
    if f.entry.len() == 0 {
        FunctionModel { entry: id, ..f }
    } else {
        f
    }
}

/// The functions read so far, the open one included.
pub open spec fn closed(p: ProgressModel) -> Seq<FunctionModel> {
    match p.function {
        Some(f) => p.done.push(with_block(f, p.block)),
        None => p.done,
    }
}

/// What a line inside a block does to the block.
pub open spec fn extended(p: ProgressModel, b: BlockModel, line: LineModel) -> StepModel {
    match line {
        LineModel::Stmt(stmt) => StepModel::Next(
            ProgressModel { block: Some(BlockModel { stmts: b.stmts.push(stmt), ..b }), ..p },
        ),
        LineModel::Term(term) => StepModel::Next(
            ProgressModel { block: Some(BlockModel { term, ..b }), ..p },
        ),
        LineModel::Fault(complaint) => StepModel::Stop(complaint),
        _ => StepModel::Truncated,
    }
}

/// What a line does.
pub open spec fn step(p: ProgressModel, line: LineModel) -> StepModel {
    match line {
        LineModel::Blank => StepModel::Next(p),
        LineModel::Function { name } => StepModel::Next(
            ProgressModel { done: closed(p), function: Some(new_function(name)), block: None },
        ),
        LineModel::Nameless => StepModel::Stop("missing function name"@),
        _ => match p.function {
            None => StepModel::Stop("statement outside a function"@),
            Some(f) => match line {
                LineModel::Label { id } => StepModel::Next(
                    ProgressModel {
                        function: Some(with_entry(with_block(f, p.block), id)),
                        block: Some(new_block(id)),
                        ..p
                    },
                ),
                _ => match p.block {
                    None => StepModel::Stop("statement outside a basic block"@),
                    Some(b) => extended(p, b, line),
                },
            },
        },
    }
}

/// What reading the lines from number `at` on comes to.
pub open spec fn parse_from(all: Seq<Seq<char>>, at: nat, p: ProgressModel) -> OutcomeModel
    decreases all.len() - at,
{
    if at >= all.len() {
        OutcomeModel::Parsed(closed(p))
    } else {
        match step(p, read_line(all[at as int])) {
            StepModel::Next(next) => parse_from(all, at + 1, next),
            StepModel::Stop(complaint) => OutcomeModel::Failed {
                number: at + 1,
                complaint,
                text: line_text(all[at as int]),
            },
            StepModel::Truncated => OutcomeModel::Truncated,
        }
    }
}

/// Nothing read yet.
pub open spec fn nothing() -> ProgressModel {
    ProgressModel { done: seq![], function: None, block: None }
}

/// What parsing `src` comes to.
pub open spec fn parse(src: Seq<char>) -> OutcomeModel {
    parse_from(lines(src), 0, nothing())
}

/// The message for a wrong line.
pub open spec fn message(number: nat, complaint: Seq<char>, text: Seq<char>) -> Seq<char> {
    "line "@ + decimal(number) + ": "@ + complaint + " (`"@ + text + "`)"@
}

/// The models of functions.
pub open spec fn functions_view(funcs: Seq<Function>) -> Seq<FunctionModel> {
    funcs.map_values(|f: Function| f@)
}

/// The first identifier that is not empty, or the empty one.
pub open spec fn first_named(ids: Seq<Seq<char>>) -> Seq<char>
    decreases ids.len(),
{
    if ids.len() == 0 {
        seq![]
    } else if first_named(ids.drop_last()).len() > 0 {
        first_named(ids.drop_last())
    } else {
        ids.last()
    }
}

/// The blocks are those that the order names, each under its own identifier, and the entry is the
/// first of them whose identifier is not empty.
pub open spec fn tidy(f: FunctionModel) -> bool {
    &&& f.wf()
    &&& forall|id: Seq<char>| #[trigger] f.blocks.contains_key(id) ==> f.order.contains(id)
    &&& forall|id: Seq<char>| #[trigger] f.blocks.contains_key(id) ==> f.blocks[id].id == id
    &&& f.entry == first_named(f.order)
}

/// Everything read so far is tidy.
pub open spec fn tidy_so_far(p: ProgressModel) -> bool {
    forall|i: int| 0 <= i < closed(p).len() ==> tidy(#[trigger] closed(p)[i])
}

/// Putting in a block with an identifier of its own keeps a function tidy once the entry is
/// settled.
proof fn lemma_tidy_block(f: FunctionModel, b: BlockModel)
    requires
        tidy(f),
    ensures
        tidy(with_block(with_entry(f, b.id), Some(b))),
{
    let g = with_block(with_entry(f, b.id), Some(b));
    assert(g.order.drop_last() == f.order);
    assert(g.order[f.order.len() as int] == b.id);
    assert forall|i: int| 0 <= i < g.order.len() implies g.blocks.contains_key(
        #[trigger] g.order[i],
    ) by {
        if i < f.order.len() {
            assert(g.order[i] == f.order[i]);
        }
    }
    assert forall|id: Seq<char>| #[trigger] g.blocks.contains_key(id) implies g.order.contains(
        id,
    ) by {
        if f.blocks.contains_key(id) {
            let i = choose|i: int| 0 <= i < f.order.len() && f.order[i] == id;
            assert(g.order[i] == id);
        }
    }
}

/// A line keeps everything tidy.
proof fn lemma_tidy_step(p: ProgressModel, line: LineModel)
    requires
        tidy_so_far(p),
    ensures
        step(p, line) matches StepModel::Next(next) ==> tidy_so_far(next),
{
    if let StepModel::Next(next) = step(p, line) {
        match line {
            LineModel::Blank => {},
            LineModel::Function { name } => {
                let f = new_function(name);
                assert(tidy(f));
                assert forall|i: int| 0 <= i < closed(next).len() implies tidy(
                    #[trigger] closed(next)[i],
                ) by {
                    if i < closed(p).len() {
                        assert(closed(next)[i] == closed(p)[i]);
                    }
                }
            },
            LineModel::Label { id } => {
                let f = with_block(p.function->0, p.block);
                assert(closed(p)[p.done.len() as int] == f);
                lemma_tidy_block(f, new_block(id));
                assert forall|i: int| 0 <= i < closed(next).len() implies tidy(
                    #[trigger] closed(next)[i],
                ) by {
                    if i < p.done.len() {
                        assert(closed(next)[i] == closed(p)[i]);
                    }
                }
            },
            _ => {
                let f = p.function->0;
                let before = with_block(f, p.block);
                let after = with_block(f, next.block);
                assert(closed(p)[p.done.len() as int] == before);
                assert(after.order == before.order);
                assert forall|id: Seq<char>| after.blocks.contains_key(
                    id,
                ) == before.blocks.contains_key(id) by {}
                assert forall|id: Seq<char>| #[trigger]
                    after.blocks.contains_key(id) implies after.blocks[id].id == id by {
                    assert(before.blocks.contains_key(id));
                }
                assert(tidy(after));
                assert forall|i: int| 0 <= i < closed(next).len() implies tidy(
                    #[trigger] closed(next)[i],
                ) by {
                    if i < p.done.len() {
                        assert(closed(next)[i] == closed(p)[i]);
                    }
                }
            },
        }
    }
}

proof fn lemma_tidy_from(all: Seq<Seq<char>>, at: nat, p: ProgressModel)
    requires
        tidy_so_far(p),
    ensures
        parse_from(all, at, p) matches OutcomeModel::Parsed(funcs) ==> forall|i: int|
            0 <= i < funcs.len() ==> tidy(#[trigger] funcs[i]),
    decreases all.len() - at,
{
    if at < all.len() {
        lemma_tidy_step(p, read_line(all[at as int]));
        if let StepModel::Next(next) = step(p, read_line(all[at as int])) {
            lemma_tidy_from(all, at + 1, next);
        }
    }
}

/// Every function that comes out of parsing is tidy: each block that its order names is there,
/// under its own identifier, there are no other blocks, and the first block is the entry. Such a
/// function can be analyzed.
pub proof fn law_parsed_functions_are_tidy(src: Seq<char>)
    ensures
        parse(src) matches OutcomeModel::Parsed(funcs) ==> forall|i: int|
            0 <= i < funcs.len() ==> tidy(#[trigger] funcs[i]),
{
    lemma_tidy_from(lines(src), 0, nothing());
}

/// The entry of a tidy function is its first block, unless that has the empty identifier.
pub proof fn law_entry_is_first_block(f: FunctionModel)
    requires
        tidy(f),
        f.order.len() > 0,
        f.order[0].len() > 0,
    ensures
        f.entry == f.order[0],
{
    lemma_first_named(f.order);
}

proof fn lemma_first_named(ids: Seq<Seq<char>>)
    requires
        ids.len() > 0,
        ids[0].len() > 0,
    ensures
        first_named(ids) == ids[0],
    decreases ids.len(),
{
    if ids.len() > 1 {
        lemma_first_named(ids.drop_last());
    } else {
        assert(first_named(ids.drop_last()).len() == 0);
    }
}

/// What a parser has read so far.
struct Progress {
    done: Vec<Function>,
    function: Option<Function>,
    block: Option<Block>,
}

impl View for Progress {
    type V = ProgressModel;

    closed spec fn view(&self) -> ProgressModel {
        ProgressModel {
            done: functions_view(self.done@),
            function: match self.function {
                Some(f) => Some(f@),
                None => None,
            },
            block: match self.block {
                Some(b) => Some(b@),
                None => None,
            },
        }
    }
}

/// How a line went.
enum Step {
    Next,
    Stop(String),
    Truncated,
}

/// Puts a block into a function.
fn add_block(f: &mut Function, block: Option<Block>)
    ensures
        final(f)@ == with_block(old(f)@, match block {
            Some(b) => Some(b@),
            None => None,
        }),
{
    if let Some(b) = block {
        let ghost before = *f;
        let id = b.id.clone();
        f.order.push(b.id.clone());
        f.blocks.insert(id, b);
        proof {
            assert(f@.order == before@.order.push(b@.id));
            assert(f@.blocks == before@.blocks.insert(b@.id, b@));
        }
    }
}

impl Progress {
    /// Closes the open function, if there is one.
    fn close(&mut self)
        ensures
            final(self)@ == (ProgressModel {
                done: closed(old(self)@),
                function: None,
                block: None,
            }),
    {
        let block = self.block.take();
        if let Some(f) = self.function.take() {
            let mut f = f;
            add_block(&mut f, block);
            let ghost before = self.done@;
            self.done.push(f);
            assert(functions_view(self.done@) == functions_view(before).push(f@));
        }
    }

    /// Takes one more line.
    fn advance(&mut self, line: Line) -> (went: Step)
        ensures
            match went {
                Step::Next => step(old(self)@, line@) == StepModel::Next(final(self)@),
                Step::Stop(complaint) => step(old(self)@, line@) == StepModel::Stop(complaint@),
                Step::Truncated => step(old(self)@, line@) == StepModel::Truncated,
            },
    {
        match line {
            Line::Blank => Step::Next,
            Line::Function { name } => {
                self.close();
                let f = Function {
                    name,
                    entry: String::new(),
                    blocks: NameMap::new(),
                    order: Vec::new(),
                };
                proof {
                    assert(f@.blocks == Map::<Seq<char>, BlockModel>::empty());
                    assert(f@.order == Seq::<Seq<char>>::empty());
                }
                self.function = Some(f);
                Step::Next
            },
            Line::Nameless => Step::Stop("missing function name".to_owned()),
            _ => self.advance_function(line),
        }
    }

    /// Takes a line that belongs to a function.
    fn advance_function(&mut self, line: Line) -> (went: Step)
        requires
            !(line is Blank || line is Function || line is Nameless),
        ensures
            match went {
                Step::Next => step(old(self)@, line@) == StepModel::Next(final(self)@),
                Step::Stop(complaint) => step(old(self)@, line@) == StepModel::Stop(complaint@),
                Step::Truncated => step(old(self)@, line@) == StepModel::Truncated,
            },
    {
        match self.function.take() {
            None => Step::Stop("statement outside a function".to_owned()),
            Some(f) => {
                if let Line::Label { id } = line {
                    let mut f = f;
                    add_block(&mut f, self.block.take());
                    if f.entry.as_str().is_empty() {
                        f.entry = id.clone();
                    }
                    let b = Block { id, stmts: Vec::new(), term: Term::Ret };
                    assert(b@.stmts == Seq::<StmtModel>::empty());
                    self.block = Some(b);
                    self.function = Some(f);
                    Step::Next
                } else {
                    self.function = Some(f);
                    self.advance_block(line)
                }
            },
        }
    }

    /// Takes a line that belongs to a block.
    fn advance_block(&mut self, line: Line) -> (went: Step)
        requires
            old(self)@.function is Some,
            !(line is Blank || line is Function || line is Nameless || line is Label),
        ensures
            match went {
                Step::Next => step(old(self)@, line@) == StepModel::Next(final(self)@),
                Step::Stop(complaint) => step(old(self)@, line@) == StepModel::Stop(complaint@),
                Step::Truncated => step(old(self)@, line@) == StepModel::Truncated,
            },
    {
        match self.block.take() {
            None => Step::Stop("statement outside a basic block".to_owned()),
            Some(b) => {
                let mut b = b;
                let ghost before = b@;
                match line {
                    Line::Stmt(stmt) => {
                        b.stmts.push(stmt);
                        assert(b@.stmts == before.stmts.push(stmt@));
                        self.block = Some(b);
                        Step::Next
                    },
                    Line::Term(term) => {
                        b.term = term;
                        self.block = Some(b);
                        Step::Next
                    },
                    Line::Fault(complaint) => Step::Stop(complaint),
                    _ => Step::Truncated,
                }
            },
        }
    }
}

/// The message for a wrong line.
fn error_message(number: usize, complaint: &str, text: &str) -> (error: String)
    ensures
        error@ == message(number as nat, complaint@, text@),
{
    let mut error = "line ".to_owned();
    append_decimal(&mut error, number);
    error.append(": ");
    error.append(complaint);
    error.append(" (`");
    error.append(text);
    error.append("`)");
    error
}

/// A parser's answer is what parsing comes to, and its functions are tidy.
pub open spec fn answers(result: Result<Vec<Function>, String>, outcome: OutcomeModel) -> bool {
    match outcome {
        OutcomeModel::Parsed(funcs) => {
            &&& result matches Ok(found)
            &&& functions_view(found@) == funcs
            &&& forall|i: int| 0 <= i < found@.len() ==> tidy((#[trigger] found@[i])@)
        },
        OutcomeModel::Failed { number, complaint, text } => result matches Err(error) && error@
            == message(number, complaint, text),
        OutcomeModel::Truncated => false,
    }
}

/// Parses a program text, or gives `None` if a line stops before its last operand and no line
/// before it is wrong.
pub fn try_parse_module(src: &str) -> (result: Option<Result<Vec<Function>, String>>)
    ensures
        match result {
            Some(result) => answers(result, parse(src@)),
            None => parse(src@) is Truncated,
        },
{
    let chars = chars_of(src);
    let bounds = line_bounds(chars.as_slice());
    let ghost all = lines(src@);
    let mut progress = Progress { done: Vec::new(), function: None, block: None };
    let mut i: usize = 0;
    assert(progress@ == nothing());
    while i < bounds.len()
        invariant
            all == lines(src@),
            chars@ == src@,
            bounds_lines(bounds@, chars@),
            i <= bounds@.len(),
            parse(src@) == parse_from(all, i as nat, progress@),
        decreases bounds@.len() - i,
    {
        let (from, to) = bounds[i];
        let (line, text) = parse_line(chars.as_slice(), from, to);
        match progress.advance(line) {
            Step::Next => {},
            Step::Stop(complaint) => {
                return Some(Err(error_message(i + 1, complaint.as_str(), text.as_str())));
            },
            Step::Truncated => {
                return None;
            },
        }
        i = i + 1;
    }
    progress.close();
    proof {
        let funcs = functions_view(progress.done@);
        assert(progress@.done == funcs);
        assert(parse(src@) == OutcomeModel::Parsed(funcs));
        law_parsed_functions_are_tidy(src@);
        assert forall|i: int| 0 <= i < progress.done@.len() implies tidy(
            (#[trigger] progress.done@[i])@,
        ) by {
            assert(0 <= i < funcs.len());
            assert(tidy(parse(src@)->Parsed_0[i]));
        }
    }
    Some(Ok(progress.done))
}

/// Parses a program text into its functions, or says which line is wrong and why. Every statement
/// and terminator must have its operands.
pub fn parse_module(src: &str) -> (result: Result<Vec<Function>, String>)
    requires
        !(parse(src@) is Truncated),
    ensures
        answers(result, parse(src@)),
{
    try_parse_module(src).unwrap()
}

/// What a parser answers is the outcome: all of the functions, one by one, or the message for the
/// wrong line. No answer fits a text that stops before an operand.
pub proof fn law_answer_is_the_outcome(
    result: Result<Vec<Function>, String>,
    funcs: Seq<FunctionModel>,
    number: nat,
    complaint: Seq<char>,
    text: Seq<char>,
)
    ensures
        answers(result, OutcomeModel::Parsed(funcs)) ==> (result matches Ok(found) && {
            &&& found@.len() == funcs.len()
            &&& forall|i: int| 0 <= i < funcs.len() ==> (#[trigger] found@[i])@ == funcs[i]
        }),
        answers(result, OutcomeModel::Failed { number, complaint, text }) ==> (result matches Err(
            error,
        ) && error@ == message(number, complaint, text)),
        !answers(result, OutcomeModel::Truncated),
{
    if answers(result, OutcomeModel::Parsed(funcs)) {
        let found = result->Ok_0@;
        assert forall|i: int| 0 <= i < funcs.len() implies (#[trigger] found[i])@ == funcs[i] by {
            assert(functions_view(found)[i] == found[i]@);
        }
    }
}

/// The models of functions are as many as the functions, one by one.
pub proof fn law_function_list_model_is_faithful(funcs: Seq<Function>)
    ensures
        functions_view(funcs).len() == funcs.len(),
        forall|i: int| 0 <= i < funcs.len() ==> #[trigger] functions_view(funcs)[i] == funcs[i]@,
{
}

} // verus!
