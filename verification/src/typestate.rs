//! The atomic-context typestate, as mathematics.
//!
//! The state at a program point is the set of preemption-disabling guards that may be live there;
//! the point is in atomic context when that set is not empty. The states of a function are the
//! least solution of its dataflow equations, with union at control-flow merges.

use crate::ir::{BlockModel, FunctionModel, GuardKind, StmtModel, TermModel};
use vstd::prelude::*;

verus! {

/// The live preemption-disabling guards at a program point.
pub type State = Set<Seq<char>>;

/// The state on entry to each block.
pub type States = Map<Seq<char>, Set<Seq<char>>>;

/// The state after acquiring a guard: only a preemption-disabling one becomes live.
pub open spec fn acquired(st: State, local: Seq<char>, kind: GuardKind) -> State {
    match kind {
        GuardKind::PreemptDisabling => st.insert(local),
        GuardKind::Sleepable => st,
    }
}

/// The state after a statement.
pub open spec fn after_stmt(stmt: StmtModel, st: State) -> State {
    match stmt {
        StmtModel::Acquire { local, kind } => acquired(st, local, kind),
        StmtModel::Drop { local } => st.remove(local),
        StmtModel::StorageDead { local } => st.remove(local),
    }
}

/// The state after a run of statements.
pub open spec fn after_stmts(stmts: Seq<StmtModel>, st: State) -> State
    decreases stmts.len(),
{
    if stmts.len() == 0 {
        st
    } else {
        after_stmt(stmts.last(), after_stmts(stmts.drop_last(), st))
    }
}

/// Where a terminator leads. `success` tells the two ways out of a conditional acquire apart; the
/// other terminators have one way out, or none.
pub open spec fn successor(term: TermModel, success: bool) -> Option<Seq<char>> {
    match term {
        TermModel::Call { symbol, target } => Some(target),
        TermModel::MemDrop { local, target } => Some(target),
        TermModel::MemForget { local, target } => Some(target),
        TermModel::TryAcquire { local, kind, success: on_success, fail: on_fail } => if success {
            Some(on_success)
        } else {
            Some(on_fail)
        },
        TermModel::Goto { target } => Some(target),
        TermModel::Ret => None,
    }
}

/// The state that a terminator hands to its successor. `core::mem::drop` releases the guard,
/// `core::mem::forget` does not, and a conditional acquire yields a guard on success only.
pub open spec fn handed_on(term: TermModel, success: bool, st: State) -> State {
    match term {
        TermModel::MemDrop { local, target } => st.remove(local),
        TermModel::TryAcquire { local, kind, success: on_success, fail: on_fail } => if success {
            acquired(st, local, kind)
        } else {
            st
        },
        _ => st,
    }
}

/// The state that a block hands on when it is entered in state `st`.
pub open spec fn leaving(block: BlockModel, success: bool, st: State) -> State {
    handed_on(block.term, success, after_stmts(block.stmts, st))
}

/// Guard `g` reaches the entry of block `to` from block `from`, given the states on entry.
pub open spec fn arrives(
    f: FunctionModel,
    states: States,
    from: Seq<char>,
    success: bool,
    to: Seq<char>,
    g: Seq<char>,
) -> bool {
    &&& f.order.contains(from)
    &&& successor(f.blocks[from].term, success) == Some(to)
    &&& leaving(f.blocks[from], success, states[from]).contains(g)
}

/// One round of the dataflow: a block is entered with every guard that some predecessor hands on.
/// The entry block is entered with none.
pub open spec fn round(f: FunctionModel, states: States) -> States {
    Map::new(
        |b: Seq<char>| f.order.contains(b),
        |b: Seq<char>|
            if b == f.entry {
                Set::empty()
            } else {
                Set::new(
                    |g: Seq<char>|
                        exists|from: Seq<char>, success: bool|
                            arrives(f, states, from, success, b, g),
                )
            },
    )
}

/// The states solve the dataflow equations.
pub open spec fn is_fixpoint(f: FunctionModel, states: States) -> bool {
    round(f, states) == states
}

/// `a` holds no guard anywhere that `b` does not hold there.
pub open spec fn below(f: FunctionModel, a: States, b: States) -> bool {
    forall|id: Seq<char>| #[trigger] f.order.contains(id) ==> a[id].subset_of(b[id])
}

/// The least solution of the dataflow equations.
pub open spec fn is_least_fixpoint(f: FunctionModel, states: States) -> bool {
    &&& is_fixpoint(f, states)
    &&& forall|other: States| #[trigger] is_fixpoint(f, other) ==> below(f, states, other)
}

/// The state on entry to each block of `f`.
pub open spec fn in_states(f: FunctionModel) -> States {
    choose|states: States| is_least_fixpoint(f, states)
}

/// Whether `st` is atomic context.
pub open spec fn atomic(st: State) -> bool {
    st != Set::<Seq<char>>::empty()
}

/// No guard on entry to any block.
pub open spec fn bottom(f: FunctionModel) -> States {
    Map::new(|b: Seq<char>| f.order.contains(b), |b: Seq<char>| Set::empty())
}

/// The states after `n` rounds, starting from no guards.
pub open spec fn rounds(f: FunctionModel, n: nat) -> States
    decreases n,
{
    if n == 0 {
        bottom(f)
    } else {
        round(f, rounds(f, (n - 1) as nat))
    }
}

/// What happens to one guard in a run of statements depends on that guard alone.
pub proof fn lemma_after_stmts_pointwise(stmts: Seq<StmtModel>, a: State, b: State, g: Seq<char>)
    requires
        a.contains(g) ==> b.contains(g),
    ensures
        after_stmts(stmts, a).contains(g) ==> after_stmts(stmts, b).contains(g),
    decreases stmts.len(),
{
    if stmts.len() > 0 {
        lemma_after_stmts_pointwise(stmts.drop_last(), a, b, g);
    }
}

/// What happens to one guard in a block depends on that guard alone.
pub proof fn lemma_leaving_pointwise(
    block: BlockModel,
    success: bool,
    a: State,
    b: State,
    g: Seq<char>,
)
    requires
        a.contains(g) ==> b.contains(g),
    ensures
        leaving(block, success, a).contains(g) ==> leaving(block, success, b).contains(g),
{
    lemma_after_stmts_pointwise(block.stmts, a, b, g);
}

/// More guards in, more guards out.
pub proof fn lemma_round_monotone(f: FunctionModel, a: States, b: States)
    requires
        below(f, a, b),
    ensures
        below(f, round(f, a), round(f, b)),
{
    assert forall|id: Seq<char>| #[trigger] f.order.contains(id) implies round(f, a)[id].subset_of(
        round(f, b)[id],
    ) by {
        assert forall|g: Seq<char>| round(f, a)[id].contains(g) implies round(f, b)[id].contains(
            g,
        ) by {
            let (from, success) = choose|from: Seq<char>, success: bool|
                arrives(f, a, from, success, id, g);
            lemma_leaving_pointwise(f.blocks[from], success, a[from], b[from], g);
            assert(arrives(f, b, from, success, id, g));
        }
    }
}

/// Rounds only add guards.
pub proof fn lemma_rounds_grow(f: FunctionModel, n: nat)
    ensures
        below(f, rounds(f, n), rounds(f, n + 1)),
    decreases n,
{
    if n > 0 {
        lemma_rounds_grow(f, (n - 1) as nat);
        lemma_round_monotone(f, rounds(f, (n - 1) as nat), rounds(f, n));
    }
}

/// Rounds stay below every solution.
pub proof fn lemma_rounds_below_fixpoint(f: FunctionModel, n: nat, states: States)
    requires
        is_fixpoint(f, states),
    ensures
        below(f, rounds(f, n), states),
    decreases n,
{
    if n > 0 {
        lemma_rounds_below_fixpoint(f, (n - 1) as nat, states);
        lemma_round_monotone(f, rounds(f, (n - 1) as nat), states);
    }
}

/// When a round changes nothing, the least solution is reached.
pub proof fn lemma_stable_round_is_least(f: FunctionModel, n: nat)
    requires
        rounds(f, n + 1) == rounds(f, n),
    ensures
        is_least_fixpoint(f, rounds(f, n)),
{
    assert forall|other: States| #[trigger] is_fixpoint(f, other) implies below(
        f,
        rounds(f, n),
        other,
    ) by {
        lemma_rounds_below_fixpoint(f, n, other);
    }
}

/// There is at most one least solution.
pub proof fn lemma_least_is_unique(f: FunctionModel, a: States, b: States)
    requires
        is_least_fixpoint(f, a),
        is_least_fixpoint(f, b),
    ensures
        a == b,
{
    assert(below(f, a, b) && below(f, b, a));
    assert(a.dom() == round(f, a).dom() && b.dom() == round(f, b).dom());
    assert forall|id: Seq<char>| a.contains_key(id) implies a[id] == b[id] by {
        assert(f.order.contains(id));
        assert(a[id] == b[id]);
    }
    assert(a == b);
}

/// A guard that a statement acquires.
pub open spec fn stmt_acquires(stmt: StmtModel) -> Seq<(Seq<char>, GuardKind)> {
    match stmt {
        StmtModel::Acquire { local, kind } => seq![(local, kind)],
        _ => seq![],
    }
}

/// The guards that a run of statements acquires, in order.
pub open spec fn stmts_acquire(stmts: Seq<StmtModel>) -> Seq<(Seq<char>, GuardKind)>
    decreases stmts.len(),
{
    if stmts.len() == 0 {
        seq![]
    } else {
        stmts_acquire(stmts.drop_last()) + stmt_acquires(stmts.last())
    }
}

/// The guard that a terminator may acquire.
pub open spec fn term_acquires(term: TermModel) -> Seq<(Seq<char>, GuardKind)> {
    match term {
        TermModel::TryAcquire { local, kind, success, fail } => seq![(local, kind)],
        _ => seq![],
    }
}

/// The guards that a block acquires, in order.
pub open spec fn block_acquires(block: BlockModel) -> Seq<(Seq<char>, GuardKind)> {
    stmts_acquire(block.stmts) + term_acquires(block.term)
}

/// The guards that the blocks with identifiers `ids` acquire, in order.
pub open spec fn blocks_acquire(
    blocks: Map<Seq<char>, BlockModel>,
    ids: Seq<Seq<char>>,
) -> Seq<(Seq<char>, GuardKind)>
    decreases ids.len(),
{
    if ids.len() == 0 {
        seq![]
    } else {
        blocks_acquire(blocks, ids.drop_last()) + block_acquires(blocks[ids.last()])
    }
}

/// The guards that a function acquires, in source order.
pub open spec fn acquisitions(f: FunctionModel) -> Seq<(Seq<char>, GuardKind)> {
    blocks_acquire(f.blocks, f.order)
}

/// Some acquisition of `f` puts a preemption-disabling guard into `g`.
pub open spec fn raises(f: FunctionModel, g: Seq<char>) -> bool {
    acquisitions(f).contains((g, GuardKind::PreemptDisabling))
}

/// The locals that `f` uses for a preemption-disabling guard.
pub open spec fn raising_locals(f: FunctionModel) -> Set<Seq<char>> {
    Set::new(|g: Seq<char>| raises(f, g))
}

/// A guard that is live after a run of statements was live before it or was acquired in it.
proof fn lemma_after_stmts_source(stmts: Seq<StmtModel>, st: State, g: Seq<char>)
    requires
        after_stmts(stmts, st).contains(g),
    ensures
        st.contains(g) || stmts_acquire(stmts).contains((g, GuardKind::PreemptDisabling)),
    decreases stmts.len(),
{
    if stmts.len() > 0 {
        let before = after_stmts(stmts.drop_last(), st);
        let earlier = stmts_acquire(stmts.drop_last());
        let here = stmt_acquires(stmts.last());
        if before.contains(g) {
            lemma_after_stmts_source(stmts.drop_last(), st, g);
            if !st.contains(g) {
                lemma_contains_left(earlier, here, (g, GuardKind::PreemptDisabling));
            }
        } else {
            assert(here[0] == (g, GuardKind::PreemptDisabling));
            lemma_contains_right(earlier, here, (g, GuardKind::PreemptDisabling));
        }
    }
}

proof fn lemma_contains_left<A>(a: Seq<A>, b: Seq<A>, x: A)
    requires
        a.contains(x),
    ensures
        (a + b).contains(x),
{
    let i = choose|i: int| 0 <= i < a.len() && a[i] == x;
    assert((a + b)[i] == x);
}

proof fn lemma_contains_right<A>(a: Seq<A>, b: Seq<A>, x: A)
    requires
        b.contains(x),
    ensures
        (a + b).contains(x),
{
    let i = choose|i: int| 0 <= i < b.len() && b[i] == x;
    assert((a + b)[a.len() + i] == x);
}

/// A guard that a block hands on came in or was acquired in the block.
proof fn lemma_leaving_source(block: BlockModel, success: bool, st: State, g: Seq<char>)
    requires
        leaving(block, success, st).contains(g),
    ensures
        st.contains(g) || block_acquires(block).contains((g, GuardKind::PreemptDisabling)),
{
    let raising = (g, GuardKind::PreemptDisabling);
    if after_stmts(block.stmts, st).contains(g) {
        lemma_after_stmts_source(block.stmts, st, g);
        if !st.contains(g) {
            lemma_contains_left(stmts_acquire(block.stmts), term_acquires(block.term), raising);
        }
    } else {
        assert(term_acquires(block.term)[0] == raising);
        lemma_contains_right(stmts_acquire(block.stmts), term_acquires(block.term), raising);
    }
}

/// What one of the blocks acquires, the blocks acquire.
proof fn lemma_blocks_acquire(
    blocks: Map<Seq<char>, BlockModel>,
    ids: Seq<Seq<char>>,
    id: Seq<char>,
    a: (Seq<char>, GuardKind),
)
    requires
        ids.contains(id),
        block_acquires(blocks[id]).contains(a),
    ensures
        blocks_acquire(blocks, ids).contains(a),
    decreases ids.len(),
{
    let earlier = blocks_acquire(blocks, ids.drop_last());
    let here = block_acquires(blocks[ids.last()]);
    if ids.last() == id {
        lemma_contains_right(earlier, here, a);
    } else {
        let i = choose|i: int| 0 <= i < ids.len() && ids[i] == id;
        assert(ids.drop_last()[i] == id);
        lemma_blocks_acquire(blocks, ids.drop_last(), id, a);
        lemma_contains_left(earlier, here, a);
    }
}

/// Only guards that the function acquires with a preemption-disabling kind are ever live.
pub proof fn lemma_rounds_source(f: FunctionModel, n: nat, id: Seq<char>, g: Seq<char>)
    requires
        f.order.contains(id),
        rounds(f, n)[id].contains(g),
    ensures
        raises(f, g),
    decreases n,
{
    if n > 0 {
        let states = rounds(f, (n - 1) as nat);
        let (from, success) = choose|from: Seq<char>, success: bool|
            arrives(f, states, from, success, id, g);
        lemma_leaving_source(f.blocks[from], success, states[from], g);
        if states[from].contains(g) {
            lemma_rounds_source(f, (n - 1) as nat, from, g);
        } else {
            lemma_blocks_acquire(f.blocks, f.order, from, (g, GuardKind::PreemptDisabling));
        }
    }
}

/// A guard that is live at the end of a block's statements came in, or the function acquires it
/// with a preemption-disabling kind.
pub proof fn lemma_live_source(f: FunctionModel, id: Seq<char>, st: State, g: Seq<char>)
    requires
        f.order.contains(id),
        after_stmts(f.blocks[id].stmts, st).contains(g),
    ensures
        st.contains(g) || raises(f, g),
{
    let raising = (g, GuardKind::PreemptDisabling);
    let block = f.blocks[id];
    lemma_after_stmts_source(block.stmts, st, g);
    if !st.contains(g) {
        lemma_contains_left(stmts_acquire(block.stmts), term_acquires(block.term), raising);
        lemma_blocks_acquire(f.blocks, f.order, id, raising);
    }
}

/// How many guards the states hold, over the blocks `ids`.
spec fn weight(states: States, ids: Seq<Seq<char>>) -> nat
    decreases ids.len(),
{
    if ids.len() == 0 {
        0
    } else {
        weight(states, ids.drop_last()) + states[ids.last()].len()
    }
}

proof fn lemma_weight_bound(states: States, ids: Seq<Seq<char>>, universe: State)
    requires
        universe.finite(),
        forall|i: int| 0 <= i < ids.len() ==> states[#[trigger] ids[i]].subset_of(universe),
    ensures
        weight(states, ids) <= ids.len() * universe.len(),
    decreases ids.len(),
{
    if ids.len() > 0 {
        let shorter = ids.drop_last();
        assert forall|i: int|
            0 <= i < shorter.len() implies states[#[trigger] shorter[i]].subset_of(universe) by {
            assert(shorter[i] == ids[i]);
        }
        lemma_weight_bound(states, shorter, universe);
        assert(states[ids[ids.len() - 1]].subset_of(universe));
        vstd::set_lib::lemma_len_subset(states[ids.last()], universe);
        assert(ids.len() * universe.len() == shorter.len() * universe.len() + universe.len())
            by (nonlinear_arith)
            requires
                ids.len() == shorter.len() + 1,
        ;
    }
}

proof fn lemma_weight_grows(a: States, b: States, ids: Seq<Seq<char>>)
    requires
        forall|i: int|
            0 <= i < ids.len() ==> a[#[trigger] ids[i]].subset_of(b[ids[i]]) && b[ids[i]].finite(),
    ensures
        weight(a, ids) <= weight(b, ids),
        (exists|i: int| 0 <= i < ids.len() && a[#[trigger] ids[i]] != b[ids[i]]) ==> weight(a, ids)
            < weight(b, ids),
    decreases ids.len(),
{
    if ids.len() > 0 {
        let shorter = ids.drop_last();
        assert forall|i: int| 0 <= i < shorter.len() implies a[#[trigger] shorter[i]].subset_of(
            b[shorter[i]],
        ) && b[shorter[i]].finite() by {
            assert(shorter[i] == ids[i]);
        }
        lemma_weight_grows(a, b, shorter);
        let last = ids[ids.len() - 1];
        assert(a[last].subset_of(b[last]));
        vstd::set_lib::lemma_len_subset(a[last], b[last]);
        if exists|i: int| 0 <= i < ids.len() && a[#[trigger] ids[i]] != b[ids[i]] {
            let i = choose|i: int| 0 <= i < ids.len() && a[#[trigger] ids[i]] != b[ids[i]];
            if i == ids.len() - 1 {
                if a[last].len() == b[last].len() {
                    vstd::set_lib::lemma_subset_equality(a[last], b[last]);
                }
            } else {
                assert(shorter[i] == ids[i]);
            }
        }
    }
}

/// The identifiers, each once.
spec fn distinct(ids: Seq<Seq<char>>) -> Seq<Seq<char>>
    decreases ids.len(),
{
    if ids.len() == 0 {
        seq![]
    } else if distinct(ids.drop_last()).contains(ids.last()) {
        distinct(ids.drop_last())
    } else {
        distinct(ids.drop_last()).push(ids.last())
    }
}

proof fn lemma_distinct(ids: Seq<Seq<char>>)
    ensures
        distinct(ids).no_duplicates(),
        distinct(ids).to_set() == ids.to_set(),
        distinct(ids).len() == ids.to_set().len(),
    decreases ids.len(),
{
    if ids.len() > 0 {
        let init = ids.drop_last();
        let last = ids.last();
        lemma_distinct(init);
        assert forall|id: Seq<char>| distinct(ids).contains(id) <==> ids.contains(id) by {
            assert(distinct(init).to_set().contains(id) <==> init.to_set().contains(id));
            assert(ids == init.push(last));
            if init.contains(id) {
                let i = choose|i: int| 0 <= i < init.len() && init[i] == id;
                assert(ids[i] == id);
            }
            assert(ids[init.len() as int] == last);
            if distinct(init).contains(id) {
                let i = choose|i: int| 0 <= i < distinct(init).len() && distinct(init)[i] == id;
                assert(distinct(ids)[i] == id);
            }
            if !distinct(init).contains(last) {
                assert(distinct(ids)[distinct(init).len() as int] == last);
            }
        }
    }
    assert(distinct(ids).to_set() == ids.to_set());
    distinct(ids).unique_seq_to_set();
}

/// How many rounds can change a state: at most one for each preemption-disabling guard in each
/// block.
pub open spec fn height(f: FunctionModel) -> nat {
    f.order.to_set().len() * raising_locals(f).len()
}

/// The guards that are ever live are among the raising locals, which are finitely many.
proof fn lemma_rounds_within_locals(f: FunctionModel, n: nat)
    ensures
        raising_locals(f).finite(),
        forall|id: Seq<char>| #[trigger]
            f.order.contains(id) ==> rounds(f, n)[id].subset_of(raising_locals(f)),
{
    let locals = acquisitions(f).map_values(|a: (Seq<char>, GuardKind)| a.0);
    vstd::seq_lib::seq_to_set_is_finite(locals);
    assert forall|g: Seq<char>| raising_locals(f).contains(g) implies locals.to_set().contains(
        g,
    ) by {
        let j = choose|j: int|
            0 <= j < acquisitions(f).len() && acquisitions(f)[j] == (
                g,
                GuardKind::PreemptDisabling,
            );
        assert(locals[j] == g);
    }
    vstd::set_lib::lemma_set_subset_finite(locals.to_set(), raising_locals(f));
    assert forall|id: Seq<char>| #[trigger] f.order.contains(id) implies rounds(
        f,
        n,
    )[id].subset_of(raising_locals(f)) by {
        assert forall|g: Seq<char>| rounds(f, n)[id].contains(g) implies raising_locals(
            f,
        ).contains(g) by {
            lemma_rounds_source(f, n, id, g);
        }
    }
}

/// As long as rounds change something, each one adds a guard.
proof fn lemma_rounds_weight(f: FunctionModel, n: nat)
    requires
        rounds(f, n + 1) != rounds(f, n),
    ensures
        weight(rounds(f, n + 1), distinct(f.order)) >= n + 1,
    decreases n,
{
    let a = rounds(f, n);
    let b = rounds(f, n + 1);
    let ids = distinct(f.order);
    if n > 0 {
        lemma_rounds_weight(f, (n - 1) as nat);
    }
    lemma_rounds_grow(f, n);
    lemma_rounds_within_locals(f, n + 1);
    lemma_distinct(f.order);
    assert forall|i: int| 0 <= i < ids.len() implies a[#[trigger] ids[i]].subset_of(b[ids[i]])
        && b[ids[i]].finite() by {
        assert(ids.to_set().contains(ids[i]));
        assert(f.order.contains(ids[i]));
        vstd::set_lib::lemma_set_subset_finite(raising_locals(f), b[ids[i]]);
    }
    assert(exists|i: int| 0 <= i < ids.len() && a[#[trigger] ids[i]] != b[ids[i]]) by {
        if forall|i: int| 0 <= i < ids.len() ==> a[#[trigger] ids[i]] == b[ids[i]] {
            assert forall|id: Seq<char>| f.order.contains(id) implies a[id] == b[id] by {
                assert(ids.to_set().contains(id));
                let i = choose|i: int| 0 <= i < ids.len() && ids[i] == id;
                assert(a[ids[i]] == b[ids[i]]);
            }
            assert(a == b);
        }
    }
    lemma_weight_grows(a, b, ids);
}

/// A round that changes something is one of the first `height(f)`.
pub proof fn lemma_rounds_bounded(f: FunctionModel, n: nat)
    ensures
        rounds(f, n + 1) != rounds(f, n) ==> n < height(f),
{
    if rounds(f, n + 1) != rounds(f, n) {
        let ids = distinct(f.order);
        let states = rounds(f, n + 1);
        lemma_rounds_weight(f, n);
        lemma_rounds_within_locals(f, n + 1);
        lemma_distinct(f.order);
        assert forall|i: int| 0 <= i < ids.len() implies states[#[trigger] ids[i]].subset_of(
            raising_locals(f),
        ) by {
            assert(ids.to_set().contains(ids[i]));
            assert(f.order.contains(ids[i]));
        }
        lemma_weight_bound(states, ids, raising_locals(f));
    }
}

/// Every function has a least solution, which `in_states` picks.
pub proof fn lemma_in_states(f: FunctionModel)
    ensures
        is_least_fixpoint(f, in_states(f)),
{
    lemma_rounds_bounded(f, height(f));
    lemma_stable_round_is_least(f, height(f));
}

/// A function with `B` different blocks and `G` different locals for preemption-disabling guards
/// converges within `B * G` rounds: from then on the rounds stand still, at the least solution of
/// the dataflow equations.
pub proof fn law_converges_within_height(f: FunctionModel, n: nat)
    requires
        n >= height(f),
    ensures
        rounds(f, n) == in_states(f),
        is_least_fixpoint(f, in_states(f)),
{
    lemma_rounds_bounded(f, n);
    lemma_stable_round_is_least(f, n);
    lemma_in_states(f);
    lemma_least_is_unique(f, rounds(f, n), in_states(f));
}

} // verus!
