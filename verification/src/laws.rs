//! What holds of the analysis as a whole.

use crate::analysis::{
    call_sites, is_violation, module_sites, site_in, sites_in, violation_at, violations_among,
    CallSiteModel, ViolationModel,
};
use crate::ir::{FunctionModel, GuardKind, StmtModel, TermModel};
use crate::ordering::{
    is_stable_sort, lemma_stable_sort_filter, lemma_stable_sort_members, lemma_stable_sort_unique,
};
use crate::paths::{
    held, held_since_entry, is_route, law_live_iff_held_on_some_path, law_no_guard_is_lost,
    lemma_empty_handed, never_returns, returns_empty_handed, Hop,
};
use crate::typestate::{
    after_stmt, after_stmts, arrives, atomic, handed_on, height, in_states,
    law_converges_within_height, leaving, lemma_after_stmts_pointwise, lemma_in_states,
    lemma_live_source, lemma_rounds_source, raises, round, successor, State,
};
use vstd::prelude::*;

verus! {

/// Dropping one guard while another is held stays in atomic context, whichever way it is dropped.
pub proof fn law_dropping_one_guard_keeps_the_others(
    st: State,
    g: Seq<char>,
    dropped: Seq<char>,
    target: Seq<char>,
    success: bool,
)
    requires
        st.contains(g),
        dropped != g,
    ensures
        after_stmt(StmtModel::Drop { local: dropped }, st).contains(g),
        after_stmt(StmtModel::StorageDead { local: dropped }, st).contains(g),
        handed_on(TermModel::MemDrop { local: dropped, target }, success, st).contains(g),
        atomic(after_stmt(StmtModel::Drop { local: dropped }, st)),
        atomic(after_stmt(StmtModel::StorageDead { local: dropped }, st)),
        atomic(handed_on(TermModel::MemDrop { local: dropped, target }, success, st)),
{
}

/// A dropped guard is released at its drop point: after dropping the only guard the context is not
/// atomic, whichever way the guard is dropped.
pub proof fn law_dropping_the_only_guard_leaves_atomic_context(
    st: State,
    g: Seq<char>,
    target: Seq<char>,
    success: bool,
)
    requires
        forall|other: Seq<char>| #[trigger] st.contains(other) ==> other == g,
    ensures
        !atomic(after_stmt(StmtModel::Drop { local: g }, st)),
        !atomic(after_stmt(StmtModel::StorageDead { local: g }, st)),
        !atomic(handed_on(TermModel::MemDrop { local: g, target }, success, st)),
{
    assert(st.remove(g) == Set::<Seq<char>>::empty());
}

/// `storage_dead` does to guard liveness what `drop` does.
pub proof fn law_storage_dead_is_drop(local: Seq<char>, st: State)
    ensures
        after_stmt(StmtModel::StorageDead { local }, st) == after_stmt(
            StmtModel::Drop { local },
            st,
        ),
{
}

/// A forgotten guard is still held.
pub proof fn law_forget_keeps_the_guard(
    local: Seq<char>,
    target: Seq<char>,
    success: bool,
    st: State,
)
    ensures
        handed_on(TermModel::MemForget { local, target }, success, st) == st,
{
}

/// A conditional acquire yields its guard on the successful way out, and there alone.
pub proof fn law_conditional_acquire_is_path_sensitive(
    local: Seq<char>,
    success: Seq<char>,
    fail: Seq<char>,
    st: State,
)
    ensures
        ({
            let term = TermModel::TryAcquire {
                local,
                kind: GuardKind::PreemptDisabling,
                success,
                fail,
            };
            &&& successor(term, true) == Some(success)
            &&& handed_on(term, true, st) == st.insert(local)
            &&& successor(term, false) == Some(fail)
            &&& handed_on(term, false, st) == st
        }),
{
}

/// Merges are unions: what any predecessor hands on is live on entry to the successor, unless that
/// is the entry block, which is always entered with no guard.
pub proof fn law_merge_keeps_every_guard(
    f: FunctionModel,
    from: Seq<char>,
    success: bool,
    to: Seq<char>,
)
    requires
        f.order.contains(from),
        f.order.contains(to),
        successor(f.blocks[from].term, success) == Some(to),
    ensures
        to != f.entry ==> leaving(f.blocks[from], success, in_states(f)[from]).subset_of(
            in_states(f)[to],
        ),
        in_states(f)[f.entry] == Set::<Seq<char>>::empty() || !f.order.contains(f.entry),
{
    let states = in_states(f);
    lemma_in_states(f);
    if to != f.entry {
        assert forall|g: Seq<char>| leaving(f.blocks[from], success, states[from]).contains(
            g,
        ) implies states[to].contains(g) by {
            assert(arrives(f, states, from, success, to, g));
            assert(round(f, states)[to].contains(g));
        }
    }
    if f.order.contains(f.entry) {
        assert(round(f, states)[f.entry] == Set::<Seq<char>>::empty());
    }
}

/// Every guard that is live anywhere was acquired with a preemption-disabling kind. A function
/// whose guards are all sleepable is nowhere in atomic context.
pub proof fn law_sleepable_guards_never_raise(f: FunctionModel, id: Seq<char>, g: Seq<char>)
    requires
        f.order.contains(id),
    ensures
        in_states(f)[id].contains(g) ==> raises(f, g),
        (forall|h: Seq<char>| !raises(f, h)) ==> !atomic(
            after_stmts(f.blocks[id].stmts, in_states(f)[id]),
        ),
{
    law_converges_within_height(f, height(f));
    if in_states(f)[id].contains(g) {
        lemma_rounds_source(f, height(f), id, g);
    }
    if forall|h: Seq<char>| !raises(f, h) {
        let st = after_stmts(f.blocks[id].stmts, in_states(f)[id]);
        assert forall|h: Seq<char>| !st.contains(h) by {
            if st.contains(h) {
                lemma_live_source(f, id, in_states(f)[id], h);
                if in_states(f)[id].contains(h) {
                    lemma_rounds_source(f, height(f), id, h);
                }
            }
        }
        assert(st == Set::<Seq<char>>::empty());
    }
}

/// A call is in atomic context exactly when some path to it holds a guard there. The path may
/// start at any block of the function, with no guard, and does not come back to the entry block.
pub proof fn law_atomic_iff_some_path_holds_a_guard(f: FunctionModel, id: Seq<char>)
    requires
        f.order.contains(id),
    ensures
        atomic(after_stmts(f.blocks[id].stmts, in_states(f)[id])) <==> exists|
            from: Seq<char>,
            path: Seq<Hop>,
        |
            is_route(f, from, path, id) && never_returns(f, path, id) && atomic(
                after_stmts(f.blocks[id].stmts, #[trigger] held(f, path)),
            ) && #[trigger] f.order.contains(from),
{
    let stmts = f.blocks[id].stmts;
    let st = in_states(f)[id];
    if atomic(after_stmts(stmts, st)) {
        let g = choose|g: Seq<char>| after_stmts(stmts, st).contains(g);
        assert(after_stmts(stmts, st).contains(g)) by {
            if forall|h: Seq<char>| !after_stmts(stmts, st).contains(h) {
                assert(after_stmts(stmts, st) == Set::<Seq<char>>::empty());
            }
        }
        if st.contains(g) {
            law_live_iff_held_on_some_path(f, id, g);
            let (from, path) = choose|from: Seq<char>, path: Seq<Hop>|
                is_route(f, from, path, id) && never_returns(f, path, id) && #[trigger] held(
                    f,
                    path,
                ).contains(g) && #[trigger] f.order.contains(from);
            lemma_after_stmts_pointwise(stmts, st, held(f, path), g);
            assert(atomic(after_stmts(stmts, held(f, path))));
        } else {
            let path = Seq::<Hop>::empty();
            lemma_after_stmts_pointwise(stmts, st, held(f, path), g);
            assert(atomic(after_stmts(stmts, held(f, path))));
            assert(is_route(f, id, path, id) && never_returns(f, path, id));
        }
    }
    if exists|from: Seq<char>, path: Seq<Hop>|
        is_route(f, from, path, id) && never_returns(f, path, id) && atomic(
            after_stmts(f.blocks[id].stmts, #[trigger] held(f, path)),
        ) && #[trigger] f.order.contains(from) {
        let (from, path) = choose|from: Seq<char>, path: Seq<Hop>|
            is_route(f, from, path, id) && never_returns(f, path, id) && atomic(
                after_stmts(f.blocks[id].stmts, #[trigger] held(f, path)),
            ) && #[trigger] f.order.contains(from);
        lemma_empty_handed(f, path, id);
        law_no_guard_is_lost(f, from, path, id);
        lemma_atomic_monotone(stmts, held(f, path), st);
    }
}

/// More guards in, no less atomic out.
proof fn lemma_atomic_monotone(stmts: Seq<StmtModel>, a: State, b: State)
    requires
        a.subset_of(b),
        atomic(after_stmts(stmts, a)),
    ensures
        atomic(after_stmts(stmts, b)),
{
    let st = after_stmts(stmts, a);
    if forall|g: Seq<char>| !st.contains(g) {
        assert(st == Set::<Seq<char>>::empty());
    }
    let g = choose|g: Seq<char>| st.contains(g);
    lemma_after_stmts_pointwise(stmts, a, b, g);
}

/// What is found at a block of the order is among the call sites, and nothing else is.
pub proof fn lemma_sites_members(f: FunctionModel, ids: Seq<Seq<char>>, site: CallSiteModel)
    ensures
        sites_in(f, ids).contains(site) <==> ids.contains(site.bb) && site_in(f, site.bb) == Some(
            site,
        ),
    decreases ids.len(),
{
    if ids.len() > 0 {
        let init = ids.drop_last();
        let last = ids.last();
        lemma_sites_members(f, init, site);
        assert(ids == init.push(last));
        let before = sites_in(f, init);
        assert(ids.contains(site.bb) <==> init.contains(site.bb) || site.bb == last) by {
            if init.contains(site.bb) {
                let i = choose|i: int| 0 <= i < init.len() && init[i] == site.bb;
                assert(ids[i] == site.bb);
            }
            assert(ids[init.len() as int] == last);
        }
        if let Some(found) = site_in(f, last) {
            let after = before.push(found);
            if before.contains(site) {
                let i = choose|i: int| 0 <= i < before.len() && before[i] == site;
                assert(after[i] == site);
            }
            assert(after[before.len() as int] == found);
            if after.contains(site) && !before.contains(site) {
                let i = choose|i: int| 0 <= i < after.len() && after[i] == site;
                assert(i == before.len());
            }
        }
    }
}

/// The join is exact: a violation is reported if and only if some site is in atomic context, calls
/// a function that may sleep, and is where the violation is.
pub proof fn law_join_is_exact(
    sites: Seq<CallSiteModel>,
    can_sleep: Set<Seq<char>>,
    reported: Seq<ViolationModel>,
    violation: ViolationModel,
)
    requires
        is_stable_sort(violations_among(sites, can_sleep), reported),
    ensures
        reported.contains(violation) <==> exists|i: int|
            0 <= i < sites.len() && is_violation(#[trigger] sites[i], can_sleep) && violation_at(
                sites[i],
            ) == violation,
{
    lemma_stable_sort_members(violations_among(sites, can_sleep), reported, violation);
    lemma_violations_members(sites, can_sleep, violation);
}

proof fn lemma_violations_members(
    sites: Seq<CallSiteModel>,
    can_sleep: Set<Seq<char>>,
    violation: ViolationModel,
)
    ensures
        violations_among(sites, can_sleep).contains(violation) <==> exists|i: int|
            0 <= i < sites.len() && is_violation(#[trigger] sites[i], can_sleep) && violation_at(
                sites[i],
            ) == violation,
    decreases sites.len(),
{
    if sites.len() > 0 {
        let init = sites.drop_last();
        lemma_violations_members(init, can_sleep, violation);
        let before = violations_among(init, can_sleep);
        let after = violations_among(sites, can_sleep);
        if before.contains(violation) {
            let i = choose|i: int| 0 <= i < before.len() && before[i] == violation;
            assert(after[i] == violation);
            let j = choose|j: int|
                0 <= j < init.len() && is_violation(#[trigger] init[j], can_sleep) && violation_at(
                    init[j],
                ) == violation;
            assert(sites[j] == init[j]);
        }
        if is_violation(sites.last(), can_sleep) {
            assert(after[before.len() as int] == violation_at(sites.last()));
            assert(sites[sites.len() - 1] == sites.last());
            if after.contains(violation) && !before.contains(violation) {
                let i = choose|i: int| 0 <= i < after.len() && after[i] == violation;
                assert(i == before.len());
            }
        }
        if exists|i: int|
            0 <= i < sites.len() && is_violation(#[trigger] sites[i], can_sleep) && violation_at(
                sites[i],
            ) == violation {
            let i = choose|i: int|
                0 <= i < sites.len() && is_violation(#[trigger] sites[i], can_sleep)
                    && violation_at(sites[i]) == violation;
            if i < init.len() {
                assert(init[i] == sites[i]);
            }
        }
    }
}

/// With fewer callees that may sleep, the violations are those with the others left out.
proof fn lemma_violations_of_fewer(
    sites: Seq<CallSiteModel>,
    fewer: Set<Seq<char>>,
    more: Set<Seq<char>>,
)
    requires
        fewer.subset_of(more),
    ensures
        violations_among(sites, fewer) == violations_among(sites, more).filter(
            |violation: ViolationModel| fewer.contains(violation.symbol),
        ),
    decreases sites.len(),
{
    reveal(Seq::filter);
    let keep = |violation: ViolationModel| fewer.contains(violation.symbol);
    if sites.len() > 0 {
        let init = sites.drop_last();
        let last = violation_at(sites.last());
        lemma_violations_of_fewer(init, fewer, more);
        let many = violations_among(init, more);
        assert(many.push(last).drop_last() == many);
        assert(violations_among(sites, fewer) == violations_among(sites, more).filter(keep));
    }
}

/// A larger summary only adds violations: what a smaller one reports is what the larger one
/// reports without the violations whose callee is missing from the smaller one, in the same order
/// and as often.
pub proof fn law_more_sleepers_more_violations(
    sites: Seq<CallSiteModel>,
    fewer: Set<Seq<char>>,
    more: Set<Seq<char>>,
    few: Seq<ViolationModel>,
    many: Seq<ViolationModel>,
)
    requires
        fewer.subset_of(more),
        is_stable_sort(violations_among(sites, fewer), few),
        is_stable_sort(violations_among(sites, more), many),
    ensures
        few == many.filter(|violation: ViolationModel| fewer.contains(violation.symbol)),
{
    let keep = |violation: ViolationModel| fewer.contains(violation.symbol);
    lemma_violations_of_fewer(sites, fewer, more);
    lemma_stable_sort_filter(violations_among(sites, more), many, keep);
    lemma_stable_sort_unique(violations_among(sites, fewer), few, many.filter(keep));
}

/// A site of a program is a site of one of its functions.
pub proof fn lemma_module_members(funcs: Seq<FunctionModel>, site: CallSiteModel)
    ensures
        module_sites(funcs).contains(site) <==> exists|f: FunctionModel| #[trigger]
            funcs.contains(f) && call_sites(f).contains(site),
    decreases funcs.len(),
{
    if funcs.len() > 0 {
        let init = funcs.drop_last();
        let last = funcs.last();
        lemma_module_members(init, site);
        let a = module_sites(init);
        let b = call_sites(last);
        assert(funcs[funcs.len() - 1] == last);
        assert(funcs.contains(last));
        assert((a + b).contains(site) <==> a.contains(site) || b.contains(site)) by {
            if a.contains(site) {
                let i = choose|i: int| 0 <= i < a.len() && a[i] == site;
                assert((a + b)[i] == site);
            }
            if b.contains(site) {
                let i = choose|i: int| 0 <= i < b.len() && b[i] == site;
                assert((a + b)[a.len() + i] == site);
            }
            if (a + b).contains(site) {
                let i = choose|i: int| 0 <= i < (a + b).len() && (a + b)[i] == site;
                if i >= a.len() {
                    assert(b[i - a.len()] == site);
                } else {
                    assert(a[i] == site);
                }
            }
        }
        assert forall|f: FunctionModel| #[trigger] funcs.contains(f) <==> init.contains(f) || f
            == last by {
            if init.contains(f) {
                let i = choose|i: int| 0 <= i < init.len() && init[i] == f;
                assert(funcs[i] == f);
            }
            if funcs.contains(f) && f != last {
                let i = choose|i: int| 0 <= i < funcs.len() && funcs[i] == f;
                assert(init[i] == f);
            }
        }
        if exists|f: FunctionModel| #[trigger] funcs.contains(f) && call_sites(f).contains(site) {
            let f = choose|f: FunctionModel| #[trigger]
                funcs.contains(f) && call_sites(f).contains(site);
            assert(init.contains(f) || f == last);
        }
        if a.contains(site) {
            let f = choose|f: FunctionModel| #[trigger]
                init.contains(f) && call_sites(f).contains(site);
            assert(funcs.contains(f));
        }
    }
}

/// Block `id` of `f` ends in a call of `symbol`, which executes in atomic context.
pub open spec fn calls_in_atomic_context(
    f: FunctionModel,
    id: Seq<char>,
    symbol: Seq<char>,
) -> bool {
    &&& f.order.contains(id)
    &&& f.blocks[id].term matches TermModel::Call { symbol: called, target } && called == symbol
    &&& atomic(after_stmts(f.blocks[id].stmts, in_states(f)[id]))
}

/// A program's violations are reported exactly: a violation is reported if and only if a function
/// of that name has, in that block, a call in atomic context of that symbol, and the symbol may
/// sleep.
pub proof fn law_violations_are_exactly_the_sleeping_calls_in_atomic_context(
    funcs: Seq<FunctionModel>,
    can_sleep: Set<Seq<char>>,
    sites: Seq<CallSiteModel>,
    reported: Seq<ViolationModel>,
    violation: ViolationModel,
)
    requires
        is_stable_sort(module_sites(funcs), sites),
        is_stable_sort(violations_among(sites, can_sleep), reported),
    ensures
        reported.contains(violation) <==> can_sleep.contains(violation.symbol) && exists|
            f: FunctionModel,
        | #[trigger]
            funcs.contains(f) && f.name == violation.func && calls_in_atomic_context(
                f,
                violation.bb,
                violation.symbol,
            ),
{
    let site = CallSiteModel {
        func: violation.func,
        bb: violation.bb,
        symbol: violation.symbol,
        atomic_held: true,
    };
    law_join_is_exact(sites, can_sleep, reported, violation);
    lemma_stable_sort_members(module_sites(funcs), sites, site);
    lemma_module_members(funcs, site);
    assert forall|f: FunctionModel| call_sites(f).contains(site) <==> f.name == violation.func
        && calls_in_atomic_context(f, violation.bb, violation.symbol) by {
        lemma_sites_members(f, f.order, site);
    }
    if reported.contains(violation) {
        let i = choose|i: int|
            0 <= i < sites.len() && is_violation(#[trigger] sites[i], can_sleep) && violation_at(
                sites[i],
            ) == violation;
        assert(sites[i] == site);
        let f = choose|f: FunctionModel| #[trigger]
            funcs.contains(f) && call_sites(f).contains(site);
        assert(calls_in_atomic_context(f, violation.bb, violation.symbol));
    }
    if can_sleep.contains(violation.symbol) && exists|f: FunctionModel| #[trigger]
        funcs.contains(f) && f.name == violation.func && calls_in_atomic_context(
            f,
            violation.bb,
            violation.symbol,
        ) {
        let f = choose|f: FunctionModel| #[trigger]
            funcs.contains(f) && f.name == violation.func && calls_in_atomic_context(
                f,
                violation.bb,
                violation.symbol,
            );
        assert(call_sites(f).contains(site));
        let i = choose|i: int| 0 <= i < sites.len() && sites[i] == site;
        assert(is_violation(sites[i], can_sleep) && violation_at(sites[i]) == violation);
    }
}

/// No violation is missed: where a path through a function of a program comes to a call of a
/// symbol that may sleep with a guard in hand, the call site is reported as atomic, and the call
/// as a violation. The guard has to be acquired since the path last came to the entry block, which
/// is so of every guard when the path comes back there only empty-handed.
pub proof fn law_no_violation_is_missed(
    funcs: Seq<FunctionModel>,
    f: FunctionModel,
    from: Seq<char>,
    path: Seq<Hop>,
    id: Seq<char>,
    symbol: Seq<char>,
    target: Seq<char>,
    can_sleep: Set<Seq<char>>,
    sites: Seq<CallSiteModel>,
    reported: Seq<ViolationModel>,
)
    requires
        funcs.contains(f),
        is_route(f, from, path, id),
        f.blocks[id].term == (TermModel::Call { symbol, target }),
        ({
            ||| atomic(after_stmts(f.blocks[id].stmts, held_since_entry(f, path, id)))
            ||| returns_empty_handed(f, path, id) && atomic(
                after_stmts(f.blocks[id].stmts, held(f, path)),
            )
        }),
        can_sleep.contains(symbol),
        is_stable_sort(module_sites(funcs), sites),
        is_stable_sort(violations_among(sites, can_sleep), reported),
    ensures
        sites.contains(CallSiteModel { func: f.name, bb: id, symbol, atomic_held: true }),
        reported.contains(ViolationModel { func: f.name, bb: id, symbol }),
{
    let site = CallSiteModel { func: f.name, bb: id, symbol, atomic_held: true };
    let violation = ViolationModel { func: f.name, bb: id, symbol };
    if returns_empty_handed(f, path, id) {
        lemma_empty_handed(f, path, id);
    }
    law_no_guard_is_lost(f, from, path, id);
    lemma_atomic_monotone(
        f.blocks[id].stmts,
        held_since_entry(f, path, id),
        in_states(f)[id],
    );
    assert(calls_in_atomic_context(f, id, symbol));
    lemma_sites_members(f, f.order, site);
    lemma_module_members(funcs, site);
    lemma_stable_sort_members(module_sites(funcs), sites, site);
    law_violations_are_exactly_the_sleeping_calls_in_atomic_context(
        funcs,
        can_sleep,
        sites,
        reported,
        violation,
    );
}

} // verus!
