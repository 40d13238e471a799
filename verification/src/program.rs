//! What a program text comes to: every function, block, statement and terminator that is written
//! is there, in its place, and the first wrong line is the one that is reported.

use crate::grammar::read_line;
use crate::ir::{BlockModel, FunctionModel, StmtModel, TermModel};
use crate::layout::lemma_text_and_words;
use crate::parse::{
    closed, first_named, law_parsed_functions_are_tidy, nothing, parse, parse_from, step, tidy,
    with_block, OutcomeModel, ProgressModel, StepModel,
};
use crate::reading::law_newline_ends_a_line;
use crate::scan::{line_text, lines, words};
use vstd::prelude::*;

verus! {

/// What has been read after `n` lines, unless one of them is wrong.
spec fn after(all: Seq<Seq<char>>, n: nat) -> Option<ProgressModel>
    decreases n,
{
    if n == 0 {
        Some(nothing())
    } else {
        match after(all, (n - 1) as nat) {
            Some(p) => match step(p, read_line(all[n - 1])) {
                StepModel::Next(next) => Some(next),
                _ => None,
            },
            None => None,
        }
    }
}

/// Reading goes on from where it is.
proof fn lemma_resume(all: Seq<Seq<char>>, n: nat)
    requires
        n <= all.len(),
    ensures
        after(all, n) matches Some(p) ==> parse_from(all, 0, nothing()) == parse_from(all, n, p),
    decreases n,
{
    if n > 0 {
        lemma_resume(all, (n - 1) as nat);
    }
}

/// A text that parses is read to its end.
proof fn lemma_read_to_the_end(all: Seq<Seq<char>>, n: nat)
    requires
        n <= all.len(),
        parse_from(all, 0, nothing()) is Parsed,
    ensures
        after(all, n) is Some,
        n == all.len() ==> parse_from(all, 0, nothing()) == OutcomeModel::Parsed(
            closed(after(all, n)->0),
        ),
    decreases n,
{
    if n > 0 {
        lemma_read_to_the_end(all, (n - 1) as nat);
        lemma_resume(all, (n - 1) as nat);
    }
    lemma_resume(all, n);
}

/// Only the lines that were read matter.
proof fn lemma_after_prefix(a: Seq<Seq<char>>, b: Seq<Seq<char>>, n: nat)
    requires
        n <= a.len(),
        n <= b.len(),
        forall|i: int| 0 <= i < n ==> #[trigger] a[i] == b[i],
    ensures
        after(a, n) == after(b, n),
    decreases n,
{
    if n > 0 {
        lemma_after_prefix(a, b, (n - 1) as nat);
        assert(a[n - 1] == b[n - 1]);
    }
}

/// The line begins a function, or would if it had a name.
pub open spec fn is_fn_line(raw: Seq<char>) -> bool {
    words(line_text(raw)).len() > 0 && words(line_text(raw))[0] == "fn"@
}

proof fn lemma_fn_line(raw: Seq<char>)
    ensures
        read_line(raw) is Function ==> is_fn_line(raw) && read_line(raw)->name == words(
            line_text(raw),
        )[1],
        is_fn_line(raw) ==> read_line(raw) is Function || read_line(raw) is Nameless,
{
    lemma_text_and_words(raw);
}

/// The functions read so far have the names on the `fn` lines read so far.
proof fn lemma_names(all: Seq<Seq<char>>, n: nat)
    requires
        n <= all.len(),
        after(all, n) is Some,
    ensures
        closed(after(all, n)->0).map_values(|f: FunctionModel| f.name) == all.take(
            n as int,
        ).filter(|raw: Seq<char>| is_fn_line(raw)).map_values(
            |raw: Seq<char>| words(line_text(raw))[1],
        ),
    decreases n,
{
    reveal(Seq::filter);
    let name = |f: FunctionModel| f.name;
    let q = after(all, n)->0;
    if n > 0 {
        let p = after(all, (n - 1) as nat)->0;
        let raw = all[n - 1];
        lemma_names(all, (n - 1) as nat);
        lemma_fn_line(raw);
        assert(all.take(n as int).drop_last() == all.take(n - 1));
        assert(all.take(n as int).last() == raw);
        if read_line(raw) is Function {
            assert(closed(q) == closed(p).push(closed(q).last()));
            assert(closed(q).map_values(name) == closed(p).map_values(name).push(
                read_line(raw)->name,
            ));
        } else {
            assert(closed(q).map_values(name) == closed(p).map_values(name));
        }
    } else {
        assert(all.take(0) == Seq::<Seq<char>>::empty());
        assert(closed(q).map_values(name) == Seq::<Seq<char>>::empty());
    }
}

/// No function is lost, none is made up: a program has as many functions as it has `fn` lines, and
/// each has the name on its line, in order.
pub proof fn law_every_function_is_there(src: Seq<char>, funcs: Seq<FunctionModel>)
    requires
        parse(src) == OutcomeModel::Parsed(funcs),
    ensures
        funcs.len() == lines(src).filter(|raw: Seq<char>| is_fn_line(raw)).len(),
        funcs.map_values(|f: FunctionModel| f.name) == lines(src).filter(
            |raw: Seq<char>| is_fn_line(raw),
        ).map_values(|raw: Seq<char>| words(line_text(raw))[1]),
{
    let all = lines(src);
    lemma_read_to_the_end(all, all.len());
    lemma_names(all, all.len());
    assert(all.take(all.len() as int) == all);
    assert(funcs.len() == funcs.map_values(|f: FunctionModel| f.name).len());
}

/// Functions that are complete stay as they are.
proof fn lemma_done_stays(all: Seq<Seq<char>>, n: nat, m: nat)
    requires
        n <= m <= all.len(),
        after(all, m) is Some,
    ensures
        after(all, n) is Some,
        after(all, n)->0.done.is_prefix_of(after(all, m)->0.done),
    decreases m,
{
    if n < m {
        lemma_done_stays(all, n, (m - 1) as nat);
        let a = after(all, n)->0.done;
        let b = after(all, (m - 1) as nat)->0.done;
        let c = after(all, m)->0.done;
        assert(b.is_prefix_of(c));
        assert(a.is_prefix_of(c)) by {
            assert forall|i: int| 0 <= i < a.len() implies a[i] == c[i] by {
                assert(a[i] == b[i]);
            }
        }
    }
}

/// Inside a function: what is complete stays, and the blocks listed are those whose headers came.
proof fn lemma_inside_function(all: Seq<Seq<char>>, s: int, m: int)
    requires
        0 <= s < m <= all.len(),
        after(all, m as nat) is Some,
        is_fn_line(all[s]),
        forall|i: int| s < i < m ==> !is_fn_line(#[trigger] all[i]),
    ensures
        after(all, s as nat) is Some,
        ({
            let p = after(all, s as nat)->0;
            let q = after(all, m as nat)->0;
            &&& q.done == closed(p)
            &&& q.function is Some
            &&& q.function->0.name == words(line_text(all[s]))[1]
            &&& with_block(q.function->0, q.block).order == all.subrange(s + 1, m).filter(
                |raw: Seq<char>| read_line(raw) is Label,
            ).map_values(|raw: Seq<char>| read_line(raw)->id)
        }),
    decreases m,
{
    reveal(Seq::filter);
    let is_label = |raw: Seq<char>| read_line(raw) is Label;
    let id_of = |raw: Seq<char>| read_line(raw)->id;
    let q = after(all, m as nat)->0;
    lemma_fn_line(all[s]);
    if m == s + 1 {
        assert(all.subrange(s + 1, m) == Seq::<Seq<char>>::empty());
        assert(with_block(q.function->0, q.block).order == Seq::<Seq<char>>::empty());
    } else {
        let raw = all[m - 1];
        lemma_inside_function(all, s, m - 1);
        let p = after(all, (m - 1) as nat)->0;
        lemma_fn_line(raw);
        let longer = all.subrange(s + 1, m);
        assert(longer.drop_last() == all.subrange(s + 1, m - 1));
        assert(longer.last() == raw);
        let before = with_block(p.function->0, p.block).order;
        let now = with_block(q.function->0, q.block).order;
        if read_line(raw) is Label {
            assert(now == before.push(read_line(raw)->id));
        } else {
            assert(now == before);
        }
        assert(now == longer.filter(is_label).map_values(id_of));
    }
}

/// Where a function of a program comes to be complete.
proof fn lemma_function_is_complete(
    src: Seq<char>,
    funcs: Seq<FunctionModel>,
    s: int,
    e: int,
)
    requires
        parse(src) == OutcomeModel::Parsed(funcs),
        is_chapter(lines(src), s, e),
    ensures
        after(lines(src), e as nat) is Some,
        ({
            let q = after(lines(src), e as nat)->0;
            let k = lines(src).take(s).filter(|raw: Seq<char>| is_fn_line(raw)).len();
            &&& q.function is Some
            &&& k < funcs.len()
            &&& funcs[k as int] == with_block(q.function->0, q.block)
        }),
{
    let all = lines(src);
    lemma_read_to_the_end(all, all.len());
    lemma_done_stays(all, e as nat, all.len());
    lemma_inside_function(all, s, e);
    let p = after(all, s as nat)->0;
    let q = after(all, e as nat)->0;
    lemma_names(all, s as nat);
    assert(closed(p).len() == closed(p).map_values(|f: FunctionModel| f.name).len());
    let k = closed(p).len() as int;
    assert(closed(q)[k] == with_block(q.function->0, q.block));
    if e < all.len() {
        lemma_fn_line(all[e]);
        lemma_done_stays(all, (e + 1) as nat, all.len());
        let r = after(all, (e + 1) as nat)->0;
        assert(r.done == closed(q));
        let end = after(all, all.len())->0;
        assert(end.done[k] == r.done[k]);
        assert(closed(end)[k] == end.done[k]);
    }
}

/// Lines `s` to `e` are one function: line `s` is its `fn` line, and it goes to the next one, or to
/// the end.
pub open spec fn is_chapter(all: Seq<Seq<char>>, s: int, e: int) -> bool {
    &&& 0 <= s < e <= all.len()
    &&& is_fn_line(all[s])
    &&& forall|i: int| s < i < e ==> !is_fn_line(#[trigger] all[i])
    &&& e == all.len() || is_fn_line(all[e])
}

/// Every block header inside a function lists its block, in order, and nothing else does.
pub proof fn law_every_block_is_there(
    src: Seq<char>,
    funcs: Seq<FunctionModel>,
    s: int,
    e: int,
)
    requires
        parse(src) == OutcomeModel::Parsed(funcs),
        is_chapter(lines(src), s, e),
    ensures
        ({
            let k = lines(src).take(s).filter(|raw: Seq<char>| is_fn_line(raw)).len() as int;
            &&& 0 <= k < funcs.len()
            &&& funcs[k].name == words(line_text(lines(src)[s]))[1]
            &&& funcs[k].order == lines(src).subrange(s + 1, e).filter(
                |raw: Seq<char>| read_line(raw) is Label,
            ).map_values(|raw: Seq<char>| read_line(raw)->id)
        }),
{
    lemma_function_is_complete(src, funcs, s, e);
    lemma_inside_function(lines(src), s, e);
}

/// Lines `b` to `c`, inside a function that goes to line `e`, are one block: line `b` is its
/// header, and it goes to the next header, or to the end of the function.
pub open spec fn is_section(all: Seq<Seq<char>>, b: int, c: int, e: int) -> bool {
    &&& 0 <= b < c <= e <= all.len()
    &&& read_line(all[b]) is Label
    &&& forall|i: int| b < i < c ==> !(read_line(#[trigger] all[i]) is Label)
    &&& c == e || read_line(all[c]) is Label
}

/// Inside a block: its statements are those that came, and its terminator is the last that came.
proof fn lemma_inside_block(all: Seq<Seq<char>>, b: int, m: int)
    requires
        0 <= b < m <= all.len(),
        after(all, m as nat) is Some,
        read_line(all[b]) is Label,
        forall|i: int| b < i < m ==> !(read_line(#[trigger] all[i]) is Label),
        forall|i: int| b < i < m ==> !is_fn_line(#[trigger] all[i]),
    ensures
        ({
            let q = after(all, m as nat)->0;
            let own = all.subrange(b + 1, m);
            let terms = own.filter(|raw: Seq<char>| read_line(raw) is Term);
            &&& q.function is Some
            &&& q.block is Some
            &&& q.block->0.id == read_line(all[b])->id
            &&& q.block->0.stmts == own.filter(
                |raw: Seq<char>| read_line(raw) is Stmt,
            ).map_values(|raw: Seq<char>| read_line(raw)->Stmt_0)
            &&& q.block->0.term == if terms.len() == 0 {
                TermModel::Ret
            } else {
                read_line(terms.last())->Term_0
            }
        }),
    decreases m,
{
    reveal(Seq::filter);
    let is_stmt = |raw: Seq<char>| read_line(raw) is Stmt;
    let is_term = |raw: Seq<char>| read_line(raw) is Term;
    let stmt_of = |raw: Seq<char>| read_line(raw)->Stmt_0;
    let q = after(all, m as nat)->0;
    let own = all.subrange(b + 1, m);
    if m == b + 1 {
        assert(own == Seq::<Seq<char>>::empty());
        assert(q.block->0.stmts == Seq::<StmtModel>::empty());
        assert(own.filter(is_stmt).map_values(stmt_of) == Seq::<StmtModel>::empty());
    } else {
        let raw = all[m - 1];
        lemma_inside_block(all, b, m - 1);
        let p = after(all, (m - 1) as nat)->0;
        lemma_fn_line(raw);
        assert(own.drop_last() == all.subrange(b + 1, m - 1));
        assert(own.last() == raw);
        if read_line(raw) is Stmt {
            assert(q.block->0.stmts == p.block->0.stmts.push(read_line(raw)->Stmt_0));
        } else {
            assert(q.block->0.stmts == p.block->0.stmts);
        }
        assert(q.block->0.stmts == own.filter(is_stmt).map_values(stmt_of));
    }
}

/// A block stays as it is until a block with the same identifier comes.
proof fn lemma_block_stays(all: Seq<Seq<char>>, c: int, m: int, block: BlockModel)
    requires
        0 <= c <= m <= all.len(),
        after(all, m as nat) is Some,
        after(all, c as nat) is Some,
        after(all, c as nat)->0.function is Some,
        after(all, c as nat)->0.block == Some(block),
        c < m ==> read_line(all[c]) is Label,
        forall|i: int| c <= i < m ==> !is_fn_line(#[trigger] all[i]),
        forall|i: int|
            c <= i < m && read_line(#[trigger] all[i]) is Label ==> read_line(all[i])->id
                != block.id,
    ensures
        ({
            let q = after(all, m as nat)->0;
            &&& q.function is Some
            &&& q.block is Some
            &&& c < m ==> q.block->0.id != block.id && q.function->0.blocks.contains_key(block.id)
                && q.function->0.blocks[block.id] == block
            &&& with_block(q.function->0, q.block).blocks.contains_key(block.id)
            &&& with_block(q.function->0, q.block).blocks[block.id] == block
        }),
    decreases m,
{
    if c < m {
        let raw = all[m - 1];
        lemma_block_stays(all, c, m - 1, block);
        lemma_fn_line(raw);
        assert(!is_fn_line(raw));
        assert(read_line(raw) is Label ==> read_line(raw)->id != block.id);
    }
}

/// Every statement and terminator is there: a block has the statements of its lines, in order, and
/// the last of their terminators; without one, it returns. Of two blocks of a function with the
/// same identifier, the later one counts.
pub proof fn law_every_statement_is_there(
    src: Seq<char>,
    funcs: Seq<FunctionModel>,
    s: int,
    b: int,
    c: int,
    e: int,
)
    requires
        parse(src) == OutcomeModel::Parsed(funcs),
        is_chapter(lines(src), s, e),
        s < b,
        is_section(lines(src), b, c, e),
        forall|i: int|
            c <= i < e && read_line(#[trigger] lines(src)[i]) is Label ==> read_line(
                lines(src)[i],
            )->id != read_line(lines(src)[b])->id,
    ensures
        ({
            let all = lines(src);
            let k = all.take(s).filter(|raw: Seq<char>| is_fn_line(raw)).len() as int;
            let id = read_line(all[b])->id;
            let own = all.subrange(b + 1, c);
            let terms = own.filter(|raw: Seq<char>| read_line(raw) is Term);
            &&& 0 <= k < funcs.len()
            &&& funcs[k].blocks.contains_key(id)
            &&& funcs[k].blocks[id].id == id
            &&& funcs[k].blocks[id].stmts == own.filter(
                |raw: Seq<char>| read_line(raw) is Stmt,
            ).map_values(|raw: Seq<char>| read_line(raw)->Stmt_0)
            &&& funcs[k].blocks[id].term == if terms.len() == 0 {
                TermModel::Ret
            } else {
                read_line(terms.last())->Term_0
            }
        }),
{
    let all = lines(src);
    lemma_function_is_complete(src, funcs, s, e);
    lemma_done_stays(all, c as nat, e as nat);
    lemma_inside_block(all, b, c);
    let block = after(all, c as nat)->0.block->0;
    lemma_block_stays(all, c, e, block);
}

/// A function has the blocks that its order lists and no others, each under its identifier. Its
/// entry is the first of them whose identifier is not empty.
pub proof fn law_blocks_and_entry(
    src: Seq<char>,
    funcs: Seq<FunctionModel>,
    k: int,
    id: Seq<char>,
    first: int,
)
    requires
        parse(src) == OutcomeModel::Parsed(funcs),
        0 <= k < funcs.len(),
    ensures
        funcs[k].blocks.contains_key(id) <==> funcs[k].order.contains(id),
        funcs[k].order.contains(id) ==> funcs[k].blocks[id].id == id,
        0 <= first < funcs[k].order.len() && funcs[k].order[first].len() > 0 && (forall|j: int|
            0 <= j < first ==> (#[trigger] funcs[k].order[j]).len() == 0) ==> funcs[k].entry
            == funcs[k].order[first],
        (forall|j: int| 0 <= j < funcs[k].order.len() ==> (#[trigger] funcs[k].order[j]).len() == 0)
            ==> funcs[k].entry.len() == 0,
{
    let f = funcs[k];
    law_parsed_functions_are_tidy(src);
    assert(tidy(parse(src)->Parsed_0[k]));
    if f.order.contains(id) {
        let i = choose|i: int| 0 <= i < f.order.len() && f.order[i] == id;
        assert(f.blocks.contains_key(f.order[i]));
    }
    lemma_first_named_is_first(f.order, first);
}

proof fn lemma_first_named_is_first(ids: Seq<Seq<char>>, first: int)
    ensures
        0 <= first < ids.len() && ids[first].len() > 0 && (forall|j: int|
            0 <= j < first ==> (#[trigger] ids[j]).len() == 0) ==> first_named(ids)
            == ids[first],
        (forall|j: int| 0 <= j < ids.len() ==> (#[trigger] ids[j]).len() == 0)
            ==> first_named(ids).len() == 0,
    decreases ids.len(),
{
    if ids.len() > 0 {
        let init = ids.drop_last();
        lemma_first_named_is_first(init, first);
        assert forall|j: int| 0 <= j < init.len() implies init[j] == ids[j] by {}
        assert(ids.last() == ids[ids.len() - 1]);
        if forall|j: int| 0 <= j < ids.len() ==> (#[trigger] ids[j]).len() == 0 {
            assert forall|j: int| 0 <= j < init.len() implies (#[trigger] init[j]).len() == 0 by {
                assert(ids[j].len() == 0);
            }
        }
        if 0 <= first < ids.len() && ids[first].len() > 0 && (forall|j: int|
            0 <= j < first ==> (#[trigger] ids[j]).len() == 0) {
            assert forall|j: int| 0 <= j < first && j < init.len() implies (
            #[trigger] init[j]).len() == 0 by {
                assert(ids[j].len() == 0);
            }
        }
    }
}

/// Some line begins a function.
pub open spec fn within_function(all: Seq<Seq<char>>) -> bool {
    exists|i: int| 0 <= i < all.len() && is_fn_line(#[trigger] all[i])
}

/// Some line is a block header, and no function begins after it.
pub open spec fn within_block(all: Seq<Seq<char>>) -> bool {
    exists|i: int|
        {
            &&& 0 <= i < all.len()
            &&& read_line(#[trigger] all[i]) is Label
            &&& forall|j: int| i < j < all.len() ==> !is_fn_line(#[trigger] all[j])
        }
}

/// A function is open if and only if one has begun, and a block if and only if one has begun in it.
proof fn lemma_open(all: Seq<Seq<char>>, n: nat)
    requires
        n <= all.len(),
        after(all, n) is Some,
    ensures
        after(all, n)->0.function is Some <==> within_function(all.take(n as int)),
        after(all, n)->0.block is Some <==> within_block(all.take(n as int)),
    decreases n,
{
    let now = all.take(n as int);
    if n > 0 {
        let raw = all[n - 1];
        let init = all.take(n - 1);
        lemma_open(all, (n - 1) as nat);
        lemma_fn_line(raw);
        assert(now[n - 1] == raw);
        assert forall|i: int| 0 <= i < n - 1 implies now[i] == init[i] by {}
        if within_function(init) {
            let i = choose|i: int| 0 <= i < init.len() && is_fn_line(#[trigger] init[i]);
            assert(is_fn_line(now[i]));
        }
        if within_function(now) && !is_fn_line(raw) {
            let i = choose|i: int| 0 <= i < now.len() && is_fn_line(#[trigger] now[i]);
            assert(is_fn_line(init[i]));
        }
        if within_block(init) && !is_fn_line(raw) {
            let i = choose|i: int|
                {
                    &&& 0 <= i < init.len()
                    &&& read_line(#[trigger] init[i]) is Label
                    &&& forall|j: int| i < j < init.len() ==> !is_fn_line(#[trigger] init[j])
                };
            assert(read_line(now[i]) is Label);
            assert forall|j: int| i < j < now.len() implies !is_fn_line(#[trigger] now[j]) by {
                if j < n - 1 {
                    assert(!is_fn_line(init[j]));
                }
            }
        }
        if read_line(raw) is Label {
            assert(!is_fn_line(raw));
            assert(read_line(now[n - 1]) is Label);
        }
        if within_block(now) {
            let i = choose|i: int|
                {
                    &&& 0 <= i < now.len()
                    &&& read_line(#[trigger] now[i]) is Label
                    &&& forall|j: int| i < j < now.len() ==> !is_fn_line(#[trigger] now[j])
                };
            if i < n - 1 {
                assert(!is_fn_line(now[n - 1]));
                assert(read_line(init[i]) is Label);
                assert forall|j: int| i < j < init.len() implies !is_fn_line(
                    #[trigger] init[j],
                ) by {
                    assert(!is_fn_line(now[j]));
                }
            } else {
                assert(now[i] == raw);
            }
        }
    }
}

/// The lines of a text that ends in a newline come first, whatever follows.
pub proof fn lemma_lines_add(a: Seq<char>, b: Seq<char>)
    requires
        a.len() == 0 || a.last() == '\n',
    ensures
        lines(a + b) == lines(a) + lines(b),
    decreases a.len(),
{
    if a.len() == 0 {
        assert(a + b == b);
        assert(lines(a) + lines(b) == lines(b));
    } else {
        let n = first_newline(a, 0);
        let line = a.take(n);
        let rest = a.skip(n + 1);
        assert(a == line + seq!['\n'] + rest);
        assert(a + b == line + seq!['\n'] + (rest + b));
        assert(!line.contains('\n')) by {
            if line.contains('\n') {
                let i = choose|i: int| 0 <= i < line.len() && line[i] == '\n';
                assert(a[i] == '\n');
            }
        }
        law_newline_ends_a_line(line, rest);
        law_newline_ends_a_line(line, rest + b);
        if rest.len() > 0 {
            assert(rest.last() == a.last());
        }
        lemma_lines_add(rest, b);
        assert(lines(a + b) == lines(a) + lines(b));
    }
}

/// Where the first newline at or after `from` is.
proof fn first_newline(a: Seq<char>, from: int) -> (n: int)
    requires
        a.len() > 0,
        a.last() == '\n',
        0 <= from < a.len(),
        forall|i: int| 0 <= i < from ==> a[i] != '\n',
    ensures
        from <= n < a.len(),
        a[n] == '\n',
        forall|i: int| 0 <= i < n ==> a[i] != '\n',
    decreases a.len() - from,
{
    if a[from] == '\n' {
        from
    } else {
        first_newline(a, from + 1)
    }
}

/// The first wrong line is the one that is reported, with its number and what it says; what follows
/// it does not matter. A line is wrong if it is `fn` without a name, if it needs a function or a
/// block and none has begun, or if it is none of the forms. A line that stops before its last
/// operand ends the reading too. Any other line lets it go on.
pub proof fn law_first_wrong_line_is_reported(
    a: Seq<char>,
    line: Seq<char>,
    rest: Seq<char>,
)
    requires
        parse(a) is Parsed,
        a.len() == 0 || a.last() == '\n',
        !line.contains('\n'),
    ensures
        ({
            let form = read_line(line);
            let number = lines(a).len() + 1;
            let text = line_text(line);
            let outcome = parse(a + line + seq!['\n'] + rest);
            let needs_function = !(form is Blank || form is Function || form is Nameless);
            let needs_block = needs_function && !(form is Label);
            if form is Nameless {
                outcome == (OutcomeModel::Failed {
                    number,
                    complaint: "missing function name"@,
                    text,
                })
            } else if needs_function && !within_function(lines(a)) {
                outcome == (OutcomeModel::Failed {
                    number,
                    complaint: "statement outside a function"@,
                    text,
                })
            } else if needs_block && !within_block(lines(a)) {
                outcome == (OutcomeModel::Failed {
                    number,
                    complaint: "statement outside a basic block"@,
                    text,
                })
            } else if form is Fault {
                outcome == (OutcomeModel::Failed { number, complaint: form->Fault_0, text })
            } else if form is Truncated {
                outcome is Truncated
            } else {
                parse(a + line + seq!['\n']) is Parsed
            }
        }),
{
    let src = a + line + seq!['\n'] + rest;
    let short = a + line + seq!['\n'];
    let all = lines(src);
    let n = lines(a).len();
    let none = Seq::<char>::empty();
    assert(src == a + (line + seq!['\n'] + rest));
    assert(short == a + (line + seq!['\n'] + none));
    lemma_lines_add(a, line + seq!['\n'] + rest);
    lemma_lines_add(a, line + seq!['\n'] + none);
    law_newline_ends_a_line(line, rest);
    law_newline_ends_a_line(line, none);
    assert(all == lines(a) + (seq![line] + lines(rest)));
    assert(lines(none) == Seq::<Seq<char>>::empty());
    assert(lines(short) == lines(a) + seq![line]);
    assert(all[n as int] == line);
    assert(lines(short)[n as int] == line);
    lemma_read_to_the_end(lines(a), n);
    lemma_after_prefix(lines(a), all, n);
    lemma_after_prefix(lines(a), lines(short), n);
    lemma_resume(all, n);
    lemma_resume(lines(short), n);
    lemma_open(lines(a), n);
    assert(lines(a).take(n as int) == lines(a));
    let p = after(all, n)->0;
    if let StepModel::Next(next) = step(p, read_line(line)) {
        assert(parse_from(lines(short), n + 1, next) is Parsed);
    }
}

} // verus!
