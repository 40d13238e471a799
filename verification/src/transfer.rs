//! What statements and terminators do to guards, and what the states of a function are, guard by
//! guard.

use crate::analysis::kinds_of;
use crate::ir::{guard_kind, BlockModel, FunctionModel, GuardKind, StmtModel, TermModel};
use crate::typestate::{
    acquisitions, after_stmts, arrives, atomic, block_acquires, handed_on, height, in_states,
    law_converges_within_height, lemma_in_states, lemma_leaving_pointwise, round, rounds,
    stmt_acquires, stmts_acquire, successor, term_acquires, State, States,
};
use vstd::prelude::*;

verus! {

/// The statement releases guard `g`.
pub open spec fn releases(stmt: StmtModel, g: Seq<char>) -> bool {
    stmt == (StmtModel::Drop { local: g }) || stmt == (StmtModel::StorageDead { local: g })
}

/// A guard is live after a run of statements if and only if it is acquired there with a
/// preemption-disabling kind, or live before, and no later statement releases it.
pub proof fn law_live_after_statements(stmts: Seq<StmtModel>, st: State, g: Seq<char>)
    ensures
        after_stmts(stmts, st).contains(g) <==> {
            ||| exists|i: int|
                {
                    &&& 0 <= i < stmts.len()
                    &&& #[trigger] stmts[i] == (StmtModel::Acquire {
                        local: g,
                        kind: GuardKind::PreemptDisabling,
                    })
                    &&& forall|j: int|
                        i < j < stmts.len() ==> #[trigger] stmts[j] != (StmtModel::Drop {
                            local: g,
                        }) && stmts[j] != (StmtModel::StorageDead { local: g })
                }
            ||| st.contains(g) && forall|j: int|
                0 <= j < stmts.len() ==> #[trigger] stmts[j] != (StmtModel::Drop { local: g })
                    && stmts[j] != (StmtModel::StorageDead { local: g })
        },
    decreases stmts.len(),
{
    if stmts.len() > 0 {
        let init = stmts.drop_last();
        let last = stmts[stmts.len() - 1];
        let raising = StmtModel::Acquire { local: g, kind: GuardKind::PreemptDisabling };
        law_live_after_statements(init, st, g);
        assert forall|i: int| 0 <= i < init.len() implies init[i] == stmts[i] by {}
        if last == raising {
            assert(after_stmts(stmts, st).contains(g));
        } else if releases(last, g) {
            assert(!after_stmts(stmts, st).contains(g));
        } else {
            assert(after_stmts(stmts, st).contains(g) <==> after_stmts(init, st).contains(g));
            if exists|i: int|
                {
                    &&& 0 <= i < stmts.len()
                    &&& #[trigger] stmts[i] == raising
                    &&& forall|j: int|
                        i < j < stmts.len() ==> #[trigger] stmts[j] != (StmtModel::Drop {
                            local: g,
                        }) && stmts[j] != (StmtModel::StorageDead { local: g })
                } {
                let i = choose|i: int|
                    {
                        &&& 0 <= i < stmts.len()
                        &&& #[trigger] stmts[i] == raising
                        &&& forall|j: int|
                            i < j < stmts.len() ==> #[trigger] stmts[j] != (StmtModel::Drop {
                                local: g,
                            }) && stmts[j] != (StmtModel::StorageDead { local: g })
                    };
                assert(init[i] == raising);
            }
            if exists|i: int|
                {
                    &&& 0 <= i < init.len()
                    &&& #[trigger] init[i] == raising
                    &&& forall|j: int|
                        i < j < init.len() ==> #[trigger] init[j] != (StmtModel::Drop { local: g })
                            && init[j] != (StmtModel::StorageDead { local: g })
                } {
                let i = choose|i: int|
                    {
                        &&& 0 <= i < init.len()
                        &&& #[trigger] init[i] == raising
                        &&& forall|j: int|
                            i < j < init.len() ==> #[trigger] init[j] != (StmtModel::Drop {
                                local: g,
                            }) && init[j] != (StmtModel::StorageDead { local: g })
                    };
                assert(stmts[i] == raising);
                assert forall|j: int| i < j < stmts.len() implies #[trigger] stmts[j] != (
                StmtModel::Drop { local: g }) && stmts[j] != (StmtModel::StorageDead {
                    local: g,
                }) by {
                    if j < init.len() {
                        assert(init[j] == stmts[j]);
                    }
                }
            }
            if st.contains(g) && forall|j: int|
                0 <= j < init.len() ==> #[trigger] init[j] != (StmtModel::Drop { local: g })
                    && init[j] != (StmtModel::StorageDead { local: g }) {
                assert forall|j: int| 0 <= j < stmts.len() implies #[trigger] stmts[j] != (
                StmtModel::Drop { local: g }) && stmts[j] != (StmtModel::StorageDead {
                    local: g,
                }) by {
                    if j < init.len() {
                        assert(init[j] == stmts[j]);
                    }
                }
            }
        }
    }
}

/// A terminator hands a guard on if and only if the guard is live and not the one that
/// `core::mem::drop` takes, or is the preemption-disabling guard of a conditional acquire that
/// succeeds.
pub proof fn law_terminator_hands_on(term: TermModel, success: bool, st: State, g: Seq<char>)
    ensures
        handed_on(term, success, st).contains(g) <==> {
            ||| st.contains(g) && !(term matches TermModel::MemDrop { local, .. } && local == g)
            ||| success && (term matches TermModel::TryAcquire { local, kind, .. } && local == g
                && kind == GuardKind::PreemptDisabling)
        },
{
}

/// A conditional acquire releases nothing on either way out, and one of a sleepable lock adds
/// nothing either. Calls, branches and `core::mem::forget` leave the guards as they are.
pub proof fn law_only_mem_drop_releases(
    local: Seq<char>,
    kind: GuardKind,
    symbol: Seq<char>,
    one: Seq<char>,
    other: Seq<char>,
    success: bool,
    st: State,
)
    ensures
        st.subset_of(
            handed_on(
                TermModel::TryAcquire { local, kind, success: one, fail: other },
                success,
                st,
            ),
        ),
        kind == GuardKind::Sleepable ==> handed_on(
            TermModel::TryAcquire { local, kind, success: one, fail: other },
            success,
            st,
        ) == st,
        handed_on(TermModel::Call { symbol, target: one }, success, st) == st,
        handed_on(TermModel::Goto { target: one }, success, st) == st,
        handed_on(TermModel::MemForget { local, target: one }, success, st) == st,
        handed_on(TermModel::MemDrop { local, target: one }, success, st) == st.remove(local),
{
}

/// Where control goes from a terminator: to its target, or to one of the two targets of a
/// conditional acquire, or nowhere.
pub proof fn law_terminator_leads_to(term: TermModel, success: bool, to: Seq<char>)
    ensures
        successor(term, success) == Some(to) <==> {
            ||| term matches TermModel::Call { target, .. } && target == to
            ||| term matches TermModel::MemDrop { target, .. } && target == to
            ||| term matches TermModel::MemForget { target, .. } && target == to
            ||| term matches TermModel::Goto { target } && target == to
            ||| success && (term matches TermModel::TryAcquire { success: on_success, .. }
                && on_success == to)
            ||| !success && (term matches TermModel::TryAcquire { fail, .. } && fail == to)
        },
{
}

/// A context is atomic if and only if some guard is live in it.
pub proof fn law_atomic_iff_a_guard_is_live(st: State)
    ensures
        atomic(st) <==> exists|g: Seq<char>| st.contains(g),
{
    if forall|g: Seq<char>| !st.contains(g) {
        assert(st == Set::<Seq<char>>::empty());
    }
}

/// The acquire names whose guards disable preemption are these six.
pub proof fn law_preemption_disabling_names(name: Seq<char>)
    ensures
        guard_kind(name) == GuardKind::PreemptDisabling <==> seq![
            "local_irq_save"@,
            "preempt_disable"@,
            "raw_spin_lock"@,
            "spin_lock"@,
            "spin_lock_bh"@,
            "spin_lock_irqsave"@,
        ].contains(name),
        guard_kind(name) == GuardKind::Sleepable <==> guard_kind(name)
            != GuardKind::PreemptDisabling,
{
    let names = seq![
        "local_irq_save"@,
        "preempt_disable"@,
        "raw_spin_lock"@,
        "spin_lock"@,
        "spin_lock_bh"@,
        "spin_lock_irqsave"@,
    ];
    assert(names[0] == "local_irq_save"@);
    assert(names[1] == "preempt_disable"@);
    assert(names[2] == "raw_spin_lock"@);
    assert(names[3] == "spin_lock"@);
    assert(names[4] == "spin_lock_bh"@);
    assert(names[5] == "spin_lock_irqsave"@);
}

/// A guard is live on entry to a block if and only if some block that leads there hands it on. The
/// entry block is entered with none, and only the blocks of the function have a state.
pub proof fn law_states_solve_the_dataflow_equations(f: FunctionModel, to: Seq<char>, g: Seq<char>)
    ensures
        in_states(f).contains_key(to) <==> f.order.contains(to),
        f.order.contains(to) && to != f.entry ==> (in_states(f)[to].contains(g) <==> exists|
            from: Seq<char>,
            success: bool,
        |
            f.order.contains(from) && #[trigger] successor(f.blocks[from].term, success) == Some(to)
                && handed_on(
                f.blocks[from].term,
                success,
                after_stmts(f.blocks[from].stmts, in_states(f)[from]),
            ).contains(g)),
        f.order.contains(f.entry) ==> in_states(f)[f.entry] == Set::<Seq<char>>::empty(),
{
    let states = in_states(f);
    lemma_in_states(f);
    assert(round(f, states).contains_key(to) <==> f.order.contains(to));
    if f.order.contains(to) && to != f.entry {
        assert(round(f, states)[to] == states[to]);
        if states[to].contains(g) {
            let (from, success) = choose|from: Seq<char>, success: bool|
                arrives(f, states, from, success, to, g);
            assert(successor(f.blocks[from].term, success) == Some(to));
        }
        if exists|from: Seq<char>, success: bool|
            f.order.contains(from) && #[trigger] successor(f.blocks[from].term, success) == Some(to)
                && handed_on(
                f.blocks[from].term,
                success,
                after_stmts(f.blocks[from].stmts, states[from]),
            ).contains(g) {
            let (from, success) = choose|from: Seq<char>, success: bool|
                f.order.contains(from) && #[trigger] successor(f.blocks[from].term, success)
                    == Some(to) && handed_on(
                    f.blocks[from].term,
                    success,
                    after_stmts(f.blocks[from].stmts, states[from]),
                ).contains(g);
            assert(arrives(f, states, from, success, to, g));
            assert(round(f, states)[to].contains(g));
        }
    }
    if f.order.contains(f.entry) {
        assert(round(f, states)[f.entry] == states[f.entry]);
    }
}

/// Guards that flow along the edges of the function, from no guards on entry, stay among any
/// `states` that the edges do not lead out of: nothing is live without a reason.
pub proof fn law_nothing_is_live_without_a_reason(f: FunctionModel, states: States, to: Seq<char>)
    requires
        f.order.contains(to),
        forall|from: Seq<char>, success: bool, next: Seq<char>, g: Seq<char>|
            f.order.contains(from) && #[trigger] f.order.contains(next) && next != f.entry
                && successor(f.blocks[from].term, success) == Some(next)
                && #[trigger] handed_on(
                f.blocks[from].term,
                success,
                after_stmts(f.blocks[from].stmts, states[from]),
            ).contains(g) ==> states[next].contains(g),
    ensures
        in_states(f)[to].subset_of(states[to]),
{
    law_converges_within_height(f, height(f));
    lemma_rounds_stay_within(f, height(f), states, to);
}

proof fn lemma_rounds_stay_within(f: FunctionModel, n: nat, states: States, to: Seq<char>)
    requires
        f.order.contains(to),
        forall|from: Seq<char>, success: bool, next: Seq<char>, g: Seq<char>|
            f.order.contains(from) && #[trigger] f.order.contains(next) && next != f.entry
                && successor(f.blocks[from].term, success) == Some(next)
                && #[trigger] handed_on(
                f.blocks[from].term,
                success,
                after_stmts(f.blocks[from].stmts, states[from]),
            ).contains(g) ==> states[next].contains(g),
    ensures
        rounds(f, n)[to].subset_of(states[to]),
    decreases n,
{
    if n > 0 {
        let before = rounds(f, (n - 1) as nat);
        assert forall|g: Seq<char>| rounds(f, n)[to].contains(g) implies states[to].contains(g) by {
            let (from, success) = choose|from: Seq<char>, success: bool|
                arrives(f, before, from, success, to, g);
            lemma_rounds_stay_within(f, (n - 1) as nat, states, from);
            lemma_leaving_pointwise(f.blocks[from], success, before[from], states[from], g);
            assert(successor(f.blocks[from].term, success) == Some(to));
            assert(handed_on(
                f.blocks[from].term,
                success,
                after_stmts(f.blocks[from].stmts, states[from]),
            ).contains(g));
        }
    }
}

/// Place `i` of a block acquires a guard of kind `kind` into `g`: its `i`th statement, or its
/// terminator, which comes behind the statements.
pub open spec fn acquires_at(block: BlockModel, i: int, g: Seq<char>, kind: GuardKind) -> bool {
    if i == block.stmts.len() {
        block.term matches TermModel::TryAcquire { local, kind: k, .. } && local == g && k == kind
    } else {
        0 <= i < block.stmts.len() && block.stmts[i] == (StmtModel::Acquire { local: g, kind })
    }
}

/// Later acquisitions settle the kind where both settle it.
proof fn lemma_kinds_add(a: Seq<(Seq<char>, GuardKind)>, b: Seq<(Seq<char>, GuardKind)>)
    ensures
        kinds_of(a + b) == kinds_of(a).union_prefer_right(kinds_of(b)),
    decreases b.len(),
{
    if b.len() == 0 {
        assert(a + b == a);
        assert(kinds_of(a + b) == kinds_of(a).union_prefer_right(kinds_of(b)));
    } else {
        assert((a + b).drop_last() == a + b.drop_last());
        lemma_kinds_add(a, b.drop_last());
        assert(kinds_of(a + b) == kinds_of(a).union_prefer_right(kinds_of(b)));
    }
}

proof fn lemma_kinds_of_one(a: (Seq<char>, GuardKind))
    ensures
        kinds_of(seq![a]) == Map::<Seq<char>, GuardKind>::empty().insert(a.0, a.1),
        kinds_of(Seq::empty()) == Map::<Seq<char>, GuardKind>::empty(),
{
    assert(seq![a].drop_last() == Seq::<(Seq<char>, GuardKind)>::empty());
    assert(kinds_of(seq![a].drop_last()) == Map::<Seq<char>, GuardKind>::empty());
}

/// The statement acquires a guard into `g`.
pub open spec fn acquires(stmt: StmtModel, g: Seq<char>) -> bool {
    stmt matches StmtModel::Acquire { local, .. } && local == g
}

proof fn lemma_kinds_last_stmt(stmts: Seq<StmtModel>, i: int, g: Seq<char>, kind: GuardKind)
    requires
        0 <= i < stmts.len(),
        stmts[i] == (StmtModel::Acquire { local: g, kind }),
        forall|j: int| i < j < stmts.len() ==> !acquires(#[trigger] stmts[j], g),
    ensures
        kinds_of(stmts_acquire(stmts)).contains_key(g),
        kinds_of(stmts_acquire(stmts))[g] == kind,
    decreases stmts.len(),
{
    let init = stmts.drop_last();
    let last = stmts[stmts.len() - 1];
    lemma_kinds_add(stmts_acquire(init), stmt_acquires(last));
    if let StmtModel::Acquire { local, kind: k } = last {
        lemma_kinds_of_one((local, k));
    } else {
        lemma_kinds_of_one((g, kind));
    }
    if i < init.len() {
        assert(!acquires(last, g));
        assert(init[i] == stmts[i]);
        assert forall|j: int| i < j < init.len() implies !acquires(#[trigger] init[j], g) by {
            assert(init[j] == stmts[j]);
        }
        lemma_kinds_last_stmt(init, i, g, kind);
    }
}

proof fn lemma_kinds_stmt_source(stmts: Seq<StmtModel>, g: Seq<char>)
    ensures
        kinds_of(stmts_acquire(stmts)).contains_key(g) ==> exists|i: int|
            0 <= i < stmts.len() && acquires(#[trigger] stmts[i], g),
    decreases stmts.len(),
{
    if stmts.len() > 0 {
        let init = stmts.drop_last();
        let last = stmts[stmts.len() - 1];
        lemma_kinds_stmt_source(init, g);
        lemma_kinds_add(stmts_acquire(init), stmt_acquires(last));
        if let StmtModel::Acquire { local, kind } = last {
            lemma_kinds_of_one((local, kind));
        } else {
            lemma_kinds_of_one((g, GuardKind::Sleepable));
        }
        if kinds_of(stmts_acquire(stmts)).contains_key(g) && !acquires(last, g) {
            let i = choose|i: int| 0 <= i < init.len() && acquires(#[trigger] init[i], g);
            assert(acquires(stmts[i], g));
        }
    }
}

/// The kind that a block settles is that of its last acquisition.
proof fn lemma_kinds_of_block(block: BlockModel, i: int, g: Seq<char>, kind: GuardKind)
    requires
        acquires_at(block, i, g, kind),
        forall|j: int, k: GuardKind| j > i ==> !#[trigger] acquires_at(block, j, g, k),
    ensures
        kinds_of(block_acquires(block)).contains_key(g),
        kinds_of(block_acquires(block))[g] == kind,
{
    let stmts = block.stmts;
    lemma_kinds_add(stmts_acquire(stmts), term_acquires(block.term));
    if let TermModel::TryAcquire { local, kind: k, success, fail } = block.term {
        lemma_kinds_of_one((local, k));
        if i < stmts.len() {
            assert(!acquires_at(block, stmts.len() as int, g, k));
        }
    } else {
        lemma_kinds_of_one((g, kind));
    }
    if i < stmts.len() {
        assert forall|j: int| i < j < stmts.len() implies !acquires(#[trigger] stmts[j], g) by {
            if let StmtModel::Acquire { local, kind: k } = stmts[j] {
                assert(!acquires_at(block, j, g, k));
            }
        }
        lemma_kinds_last_stmt(stmts, i, g, kind);
    }
}

proof fn lemma_kinds_block_source(block: BlockModel, g: Seq<char>)
    ensures
        kinds_of(block_acquires(block)).contains_key(g) ==> exists|i: int, kind: GuardKind|
            acquires_at(block, i, g, kind),
{
    let stmts = block.stmts;
    lemma_kinds_add(stmts_acquire(stmts), term_acquires(block.term));
    lemma_kinds_stmt_source(stmts, g);
    if kinds_of(block_acquires(block)).contains_key(g) {
        if kinds_of(stmts_acquire(stmts)).contains_key(g) {
            let i = choose|i: int| 0 <= i < stmts.len() && acquires(#[trigger] stmts[i], g);
            if let StmtModel::Acquire { local, kind } = stmts[i] {
                assert(acquires_at(block, i, g, kind));
            }
        } else if let TermModel::TryAcquire { local, kind, success, fail } = block.term {
            lemma_kinds_of_one((local, kind));
            assert(acquires_at(block, stmts.len() as int, g, kind));
        } else {
            lemma_kinds_of_one((g, GuardKind::Sleepable));
        }
    }
}

/// The kind of a guard local is that of its last acquisition, in source order.
pub proof fn law_last_acquisition_settles_the_kind(
    f: FunctionModel,
    n: int,
    i: int,
    g: Seq<char>,
    kind: GuardKind,
)
    requires
        0 <= n < f.order.len(),
        acquires_at(f.blocks[f.order[n]], i, g, kind),
        forall|j: int, k: GuardKind|
            j > i ==> !#[trigger] acquires_at(f.blocks[f.order[n]], j, g, k),
        forall|m: int, j: int, k: GuardKind|
            n < m < f.order.len() ==> !#[trigger] acquires_at(f.blocks[f.order[m]], j, g, k),
    ensures
        kinds_of(acquisitions(f)).contains_key(g),
        kinds_of(acquisitions(f))[g] == kind,
    decreases f.order.len(),
{
    let less = FunctionModel { order: f.order.drop_last(), ..f };
    let last = f.blocks[f.order.last()];
    lemma_kinds_add(acquisitions(less), block_acquires(last));
    if n == f.order.len() - 1 {
        lemma_kinds_of_block(last, i, g, kind);
    } else {
        lemma_kinds_block_source(last, g);
        assert(f.order[f.order.len() - 1] == f.order.last());
        assert(less.order[n] == f.order[n]);
        assert forall|m: int, j: int, k: GuardKind|
            n < m < less.order.len() implies !#[trigger] acquires_at(
            less.blocks[less.order[m]],
            j,
            g,
            k,
        ) by {
            assert(less.order[m] == f.order[m]);
            assert(!acquires_at(f.blocks[f.order[m]], j, g, k));
        }
        law_last_acquisition_settles_the_kind(less, n, i, g, kind);
        if kinds_of(block_acquires(last)).contains_key(g) {
            let (j, k) = choose|j: int, k: GuardKind| acquires_at(last, j, g, k);
            assert(!acquires_at(f.blocks[f.order[f.order.len() - 1]], j, g, k));
        }
    }
}

/// Only locals that some block acquires a guard into have a kind.
pub proof fn law_only_guard_locals_have_a_kind(f: FunctionModel, g: Seq<char>)
    ensures
        kinds_of(acquisitions(f)).contains_key(g) ==> exists|n: int, i: int, kind: GuardKind|
            0 <= n < f.order.len() && #[trigger] acquires_at(f.blocks[f.order[n]], i, g, kind),
    decreases f.order.len(),
{
    if f.order.len() > 0 {
        let less = FunctionModel { order: f.order.drop_last(), ..f };
        let last = f.blocks[f.order.last()];
        law_only_guard_locals_have_a_kind(less, g);
        lemma_kinds_add(acquisitions(less), block_acquires(last));
        lemma_kinds_block_source(last, g);
        if kinds_of(acquisitions(f)).contains_key(g) {
            if kinds_of(block_acquires(last)).contains_key(g) {
                let (i, kind) = choose|i: int, kind: GuardKind| acquires_at(last, i, g, kind);
                assert(acquires_at(f.blocks[f.order[f.order.len() - 1]], i, g, kind));
            } else {
                let (n, i, kind) = choose|n: int, i: int, kind: GuardKind|
                    0 <= n < less.order.len() && #[trigger] acquires_at(
                        less.blocks[less.order[n]],
                        i,
                        g,
                        kind,
                    );
                assert(acquires_at(f.blocks[f.order[n]], i, g, kind));
            }
        }
    }
}

} // verus!
