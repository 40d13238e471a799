//! The typestate against the paths through a function.
//!
//! A path is what one execution of the modelled fragment does; the guards that it holds are
//! computed along that path alone, without merging. The laws here relate them to the states that
//! the dataflow computes.

use crate::ir::FunctionModel;
use crate::typestate::{
    arrives, height, in_states, law_converges_within_height, leaving, lemma_in_states,
    lemma_leaving_pointwise, round, rounds, successor, State,
};
use vstd::prelude::*;

verus! {

/// One step of a path: a block, and whether its conditional acquire succeeds.
pub struct Hop {
    pub block: Seq<char>,
    pub success: bool,
}

/// `path` leads from the entry of block `from` to the entry of block `to`.
pub open spec fn is_route(
    f: FunctionModel,
    from: Seq<char>,
    path: Seq<Hop>,
    to: Seq<char>,
) -> bool
    decreases path.len(),
{
    &&& f.order.contains(to)
    &&& if path.len() == 0 {
        from == to
    } else {
        let hop = path.last();
        &&& successor(f.blocks[hop.block].term, hop.success) == Some(to)
        &&& is_route(f, from, path.drop_last(), hop.block)
    }
}

/// The guards held at the end of a path that starts with none.
pub open spec fn held(f: FunctionModel, path: Seq<Hop>) -> State
    decreases path.len(),
{
    if path.len() == 0 {
        Set::empty()
    } else {
        let hop = path.last();
        leaving(f.blocks[hop.block], hop.success, held(f, path.drop_last()))
    }
}

/// The guards held at the end of a path to `to` that were acquired since the path last came to the
/// entry block.
pub open spec fn held_since_entry(f: FunctionModel, path: Seq<Hop>, to: Seq<char>) -> State
    decreases path.len(),
{
    if path.len() == 0 || to == f.entry {
        Set::empty()
    } else {
        let hop = path.last();
        leaving(
            f.blocks[hop.block],
            hop.success,
            held_since_entry(f, path.drop_last(), hop.block),
        )
    }
}

/// Whenever the path to `to` comes back to the entry block, no guard is held.
pub open spec fn returns_empty_handed(f: FunctionModel, path: Seq<Hop>, to: Seq<char>) -> bool
    decreases path.len(),
{
    path.len() > 0 ==> {
        &&& to == f.entry ==> held(f, path) == Set::<Seq<char>>::empty()
        &&& returns_empty_handed(f, path.drop_last(), path.last().block)
    }
}

/// The path to `to` does not come back to the entry block.
pub open spec fn never_returns(f: FunctionModel, path: Seq<Hop>, to: Seq<char>) -> bool
    decreases path.len(),
{
    path.len() > 0 ==> {
        &&& to != f.entry
        &&& never_returns(f, path.drop_last(), path.last().block)
    }
}

/// A path that returns to the entry block only empty-handed, or never, holds nothing from before.
pub proof fn lemma_empty_handed(f: FunctionModel, path: Seq<Hop>, to: Seq<char>)
    requires
        returns_empty_handed(f, path, to) || never_returns(f, path, to),
    ensures
        held(f, path) == held_since_entry(f, path, to),
    decreases path.len(),
{
    if path.len() > 0 {
        lemma_empty_handed(f, path.drop_last(), path.last().block);
    }
}

/// Soundness: no guard is lost. Every guard that a path holds on reaching a block, acquired since
/// the path last came to the entry block, is in the block's state, whichever way the path goes.
/// For a path that never comes back to the entry block with a guard in hand, that is every guard
/// it holds.
pub proof fn law_no_guard_is_lost(
    f: FunctionModel,
    from: Seq<char>,
    path: Seq<Hop>,
    to: Seq<char>,
)
    requires
        is_route(f, from, path, to),
    ensures
        held_since_entry(f, path, to).subset_of(in_states(f)[to]),
        returns_empty_handed(f, path, to) ==> held(f, path).subset_of(in_states(f)[to]),
    decreases path.len(),
{
    reveal_with_fuel(is_route, 2);
    let states = in_states(f);
    lemma_in_states(f);
    if returns_empty_handed(f, path, to) {
        lemma_empty_handed(f, path, to);
    }
    if path.len() > 0 && to != f.entry {
        let hop = path.last();
        let before = held_since_entry(f, path.drop_last(), hop.block);
        law_no_guard_is_lost(f, from, path.drop_last(), hop.block);
        let after = held_since_entry(f, path, to);
        assert forall|g: Seq<char>| after.contains(g) implies states[to].contains(g) by {
            lemma_leaving_pointwise(f.blocks[hop.block], hop.success, before, states[hop.block], g);
            assert(f.order.contains(hop.block));
            assert(arrives(f, states, hop.block, hop.success, to, g));
            assert(round(f, states)[to].contains(g));
        }
    }
}

/// A guard in a state after some rounds is held on some path.
proof fn lemma_live_has_path(f: FunctionModel, n: nat, to: Seq<char>, g: Seq<char>)
    requires
        f.order.contains(to),
        rounds(f, n)[to].contains(g),
    ensures
        exists|from: Seq<char>, path: Seq<Hop>|
            is_route(f, from, path, to) && never_returns(f, path, to) && #[trigger] held(
                f,
                path,
            ).contains(g) && #[trigger] f.order.contains(from),
    decreases n,
{
    if n > 0 {
        let states = rounds(f, (n - 1) as nat);
        let (source, success) = choose|source: Seq<char>, success: bool|
            arrives(f, states, source, success, to, g);
        let hop = Hop { block: source, success };
        if states[source].contains(g) {
            lemma_live_has_path(f, (n - 1) as nat, source, g);
            let (from, path) = choose|from: Seq<char>, path: Seq<Hop>|
                is_route(f, from, path, source) && never_returns(f, path, source)
                    && #[trigger] held(f, path).contains(g) && #[trigger] f.order.contains(from);
            let longer = path.push(hop);
            assert(longer.drop_last() == path);
            lemma_leaving_pointwise(
                f.blocks[source],
                success,
                states[source],
                held(f, path),
                g,
            );
            assert(is_route(f, from, longer, to) && never_returns(f, longer, to) && held(
                f,
                longer,
            ).contains(g));
        } else {
            let path = seq![hop];
            assert(path.drop_last() == Seq::<Hop>::empty());
            lemma_leaving_pointwise(
                f.blocks[source],
                success,
                states[source],
                Set::empty(),
                g,
            );
            assert(is_route(f, source, path.drop_last(), source));
            assert(never_returns(f, path.drop_last(), source));
            assert(held(f, path.drop_last()) == Set::<Seq<char>>::empty());
            assert(is_route(f, source, path, to) && never_returns(f, path, to) && held(
                f,
                path,
            ).contains(g));
        }
    }
}

/// Exactness: a guard is in a block's state if and only if some path to the block holds it. The
/// path may start at any block of the function, with no guard, and does not come back to the
/// entry block.
pub proof fn law_live_iff_held_on_some_path(f: FunctionModel, to: Seq<char>, g: Seq<char>)
    requires
        f.order.contains(to),
    ensures
        in_states(f)[to].contains(g) <==> exists|from: Seq<char>, path: Seq<Hop>|
            is_route(f, from, path, to) && never_returns(f, path, to) && #[trigger] held(
                f,
                path,
            ).contains(g) && #[trigger] f.order.contains(from),
{
    if in_states(f)[to].contains(g) {
        law_converges_within_height(f, height(f));
        lemma_live_has_path(f, height(f), to, g);
    }
    if exists|from: Seq<char>, path: Seq<Hop>|
        is_route(f, from, path, to) && never_returns(f, path, to) && #[trigger] held(
            f,
            path,
        ).contains(g) && #[trigger] f.order.contains(from) {
        let (from, path) = choose|from: Seq<char>, path: Seq<Hop>|
            is_route(f, from, path, to) && never_returns(f, path, to) && #[trigger] held(
                f,
                path,
            ).contains(g) && #[trigger] f.order.contains(from);
        law_no_guard_is_lost(f, from, path, to);
        lemma_empty_handed(f, path, to);
    }
}

} // verus!
