//! The atomic-context typestate analysis, and the join with a sleepability summary.
//!
//! A forward dataflow computes the guards that may be live on entry to each block. From these come
//! the call sites with their context, and from the call sites, given the callees that may sleep,
//! the violations.

use crate::ir::{
    BbId, Block, Function, FunctionModel, GuardKind, Stmt, StmtModel, Term, TermModel,
};
use crate::names::{NameMap, NameSet};
use crate::ordering::{
    is_stable_sort, items_at, lemma_items_at_add, lemma_stable_sort_view, sort_by_location,
    Located, Location, Placed,
};
use crate::parse::functions_view;
use crate::text::same_text;
use crate::typestate::{
    acquisitions, after_stmts, arrives, atomic, blocks_acquire, bottom, handed_on, height,
    in_states, is_least_fixpoint, lemma_in_states, lemma_least_is_unique, lemma_rounds_bounded,
    lemma_stable_round_is_least, round, rounds, stmt_acquires, stmts_acquire, successor,
    term_acquires, State, States,
};
use vstd::prelude::*;

verus! {

/// The states that a map of sets stands for.
pub open spec fn states_of(map: Map<Seq<char>, NameSet>) -> States {
    map.map_values(|set: NameSet| set@)
}

/// A block that the order names.
fn ordered_block<'a>(f: &'a Function, i: usize) -> (block: &'a Block)
    requires
        f@.wf(),
        i < f.order@.len(),
    ensures
        block@ == f@.blocks[f@.order[i as int]],
{
    assert(f@.order[i as int] == f.order@[i as int]@);
    assert(f@.blocks.contains_key(f@.order[i as int]));
    f.block(f.order[i].as_str()).unwrap()
}

/// Applies the statements of a block to a state.
pub fn apply_stmts(b: &Block, st: &mut NameSet)
    ensures
        final(st)@ == after_stmts(b@.stmts, old(st)@),
{
    let ghost stmts = b@.stmts;
    let mut i: usize = 0;
    assert(stmts.take(0) == Seq::<StmtModel>::empty());
    while i < b.stmts.len()
        invariant
            i <= b.stmts@.len() == stmts.len(),
            stmts == b@.stmts,
            st@ == after_stmts(stmts.take(i as int), old(st)@),
        decreases b.stmts@.len() - i,
    {
        proof {
            assert(stmts.take(i as int + 1).drop_last() == stmts.take(i as int));
            assert(stmts.take(i as int + 1).last() == b.stmts@[i as int]@);
        }
        match &b.stmts[i] {
            Stmt::Acquire { local, kind } => {
                if kind.raises_atomic() {
                    st.insert(local.clone());
                }
            },
            Stmt::Drop { local } => {
                st.remove(local.as_str());
            },
            Stmt::StorageDead { local } => {
                st.remove(local.as_str());
            },
        }
        i = i + 1;
    }
    assert(stmts.take(i as int) == stmts);
}

/// Adds a state to what is collected for block `target`, if that is a block of the function.
fn push_state(incoming: &mut NameMap<NameSet>, target: &str, st: &NameSet)
    ensures
        final(incoming)@.dom() == old(incoming)@.dom(),
        states_of(final(incoming)@) == if old(incoming)@.contains_key(target@) {
            states_of(old(incoming)@).insert(
                target@,
                states_of(old(incoming)@)[target@].union(st@),
            )
        } else {
            states_of(old(incoming)@)
        },
{
    let merged = match incoming.get(target) {
        Some(dst) => {
            let mut merged = dst.clone();
            merged.extend(st);
            Some(merged)
        },
        None => None,
    };
    if let Some(merged) = merged {
        incoming.insert(target.to_owned(), merged);
    }
    assert(incoming@.dom() == old(incoming)@.dom());
    assert(states_of(incoming@) == if old(incoming)@.contains_key(target@) {
        states_of(old(incoming)@).insert(target@, states_of(old(incoming)@)[target@].union(st@))
    } else {
        states_of(old(incoming)@)
    });
}

/// What a terminator hands to block `to` in state `st`, over all its ways out.
pub open spec fn handed_to(term: TermModel, st: State, to: Seq<char>) -> State {
    Set::new(
        |g: Seq<char>|
            exists|success: bool|
                #[trigger] successor(term, success) == Some(to) && handed_on(
                    term,
                    success,
                    st,
                ).contains(g),
    )
}

/// Hands a state on to the successors of a block.
fn distribute(term: &Term, st: &NameSet, incoming: &mut NameMap<NameSet>)
    ensures
        final(incoming)@.dom() == old(incoming)@.dom(),
        forall|b: Seq<char>| #[trigger]
            final(incoming)@.contains_key(b) ==> final(incoming)@[b]@ == old(incoming)@[b]@.union(
                handed_to(term@, st@, b),
            ),
{
    let ghost before = states_of(incoming@);
    match term {
        Term::Call { symbol, target } => {
            push_state(incoming, target.as_str(), st);
        },
        Term::MemDrop { local, target } => {
            let mut lowered = st.clone();
            lowered.remove(local.as_str());
            push_state(incoming, target.as_str(), &lowered);
        },
        Term::MemForget { local, target } => {
            push_state(incoming, target.as_str(), st);
        },
        Term::TryAcquire { local, kind, success, fail } => {
            let mut raised = st.clone();
            if kind.raises_atomic() {
                raised.insert(local.clone());
            }
            push_state(incoming, success.as_str(), &raised);
            push_state(incoming, fail.as_str(), st);
        },
        Term::Goto { target } => {
            push_state(incoming, target.as_str(), st);
        },
        Term::Ret => {},
    }
    proof {
        let after = states_of(incoming@);
        assert forall|b: Seq<char>| #[trigger] incoming@.contains_key(b) implies incoming@[b]@
            == old(incoming)@[b]@.union(handed_to(term@, st@, b)) by {
            assert(after[b] == incoming@[b]@);
            assert(before[b] == old(incoming)@[b]@);
            assert(successor(term@, true) == Some(b) || successor(term@, true) != Some(b));
            assert(successor(term@, false) == Some(b) || successor(term@, false) != Some(b));
            assert(after[b] == before[b].union(handed_to(term@, st@, b)));
        }
    }
}

/// A longer list holds what it held, and what was added.
proof fn lemma_contains_push(ids: Seq<Seq<char>>, id: Seq<char>)
    ensures
        forall|b: Seq<char>| #[trigger]
            ids.push(id).contains(b) <==> ids.contains(b) || b == id,
{
    assert forall|b: Seq<char>| #[trigger] ids.push(id).contains(b) <==> ids.contains(b) || b
        == id by {
        if ids.contains(b) {
            let j = choose|j: int| 0 <= j < ids.len() && ids[j] == b;
            assert(ids.push(id)[j] == b);
        }
        assert(ids.push(id)[ids.len() as int] == id);
    }
}

/// A map from every block of the order to the empty state.
fn no_guards(f: &Function) -> (states: NameMap<NameSet>)
    ensures
        states_of(states@) == bottom(f@),
{
    let mut states: NameMap<NameSet> = NameMap::new();
    let mut i: usize = 0;
    while i < f.order.len()
        invariant
            i <= f.order@.len(),
            forall|b: Seq<char>| #[trigger]
                states@.contains_key(b) <==> f@.order.take(i as int).contains(b),
            forall|b: Seq<char>| #[trigger]
                states@.contains_key(b) ==> states@[b]@ == Set::<Seq<char>>::empty(),
        decreases f.order@.len() - i,
    {
        let ghost ids = f@.order.take(i as int);
        let ghost id = f.order@[i as int]@;
        proof {
            assert(f@.order.take(i as int + 1) == ids.push(id));
            lemma_contains_push(ids, id);
        }
        states.insert(f.order[i].clone(), NameSet::new());
        i = i + 1;
    }
    assert(f@.order.take(i as int) == f@.order);
    assert(states_of(states@) == bottom(f@));
    states
}

/// The guards that the first `n` blocks of the order hand to block `to`.
spec fn gathered(f: FunctionModel, states: States, n: int, to: Seq<char>) -> State {
    Set::new(
        |g: Seq<char>|
            exists|i: int, success: bool|
                0 <= i < n && #[trigger] arrives(f, states, f.order[i], success, to, g),
    )
}

/// The next block of the order adds what it hands on.
proof fn lemma_gathered_step(f: FunctionModel, states: States, n: int, to: Seq<char>)
    requires
        0 <= n < f.order.len(),
    ensures
        gathered(f, states, n + 1, to) == gathered(f, states, n, to).union(
            handed_to(
                f.blocks[f.order[n]].term,
                after_stmts(f.blocks[f.order[n]].stmts, states[f.order[n]]),
                to,
            ),
        ),
{
    let from = f.order[n];
    let term = f.blocks[from].term;
    let st = after_stmts(f.blocks[from].stmts, states[from]);
    assert(f.order.contains(from));
    let more = gathered(f, states, n + 1, to);
    let less = gathered(f, states, n, to);
    let here = handed_to(term, st, to);
    assert forall|g: Seq<char>| more.contains(g) <==> less.contains(g) || here.contains(g) by {
        if more.contains(g) {
            let (i, success) = choose|i: int, success: bool|
                0 <= i < n + 1 && #[trigger] arrives(f, states, f.order[i], success, to, g);
            if i == n {
                assert(successor(term, success) == Some(to));
            }
        }
        if here.contains(g) {
            let success = choose|success: bool|
                #[trigger] successor(term, success) == Some(to) && handed_on(
                    term,
                    success,
                    st,
                ).contains(g);
            assert(arrives(f, states, f.order[n], success, to, g));
        }
    }
    assert(more == less.union(here));
}

/// What all blocks together hand to a block.
proof fn lemma_gathered_all(f: FunctionModel, states: States, to: Seq<char>)
    requires
        f.order.contains(to),
    ensures
        to != f.entry ==> round(f, states)[to] == gathered(f, states, f.order.len() as int, to),
{
    let all = gathered(f, states, f.order.len() as int, to);
    if to != f.entry {
        assert forall|g: Seq<char>| round(f, states)[to].contains(g) <==> all.contains(g) by {
            if round(f, states)[to].contains(g) {
                let (from, success) = choose|from: Seq<char>, success: bool|
                    arrives(f, states, from, success, to, g);
                let i = choose|i: int| 0 <= i < f.order.len() && f.order[i] == from;
                assert(arrives(f, states, f.order[i], success, to, g));
            }
        }
        assert(round(f, states)[to] == all);
    }
}

/// Collects what every block hands on to its successors.
fn gather(f: &Function, in_state: &NameMap<NameSet>) -> (incoming: NameMap<NameSet>)
    requires
        f@.wf(),
        states_of(in_state@).dom() == bottom(f@).dom(),
    ensures
        incoming@.dom() == bottom(f@).dom(),
        forall|b: Seq<char>| #[trigger]
            f@.order.contains(b) ==> incoming@[b]@ == gathered(
                f@,
                states_of(in_state@),
                f@.order.len() as int,
                b,
            ),
{
    let ghost states = states_of(in_state@);
    let mut incoming = no_guards(f);
    let mut i: usize = 0;
    proof {
        let empty = states_of(incoming@);
        assert(incoming@.dom() == empty.dom());
        assert forall|b: Seq<char>| #[trigger] f@.order.contains(b) implies incoming@[b]@
            == gathered(f@, states, 0, b) by {
            assert(empty[b] == incoming@[b]@);
            assert(gathered(f@, states, 0, b) == Set::<Seq<char>>::empty());
        }
    }
    while i < f.order.len()
        invariant
            f@.wf(),
            states == states_of(in_state@),
            states.dom() == bottom(f@).dom(),
            i <= f.order@.len() == f@.order.len(),
            incoming@.dom() == bottom(f@).dom(),
            forall|b: Seq<char>| #[trigger]
                f@.order.contains(b) ==> incoming@[b]@ == gathered(f@, states, i as int, b),
        decreases f.order@.len() - i,
    {
        let b = ordered_block(f, i);
        let ghost id = f@.order[i as int];
        proof {
            assert(id == f.order@[i as int]@);
            assert(f@.order.contains(id));
            assert(states.contains_key(id));
        }
        let mut st = in_state.get(f.order[i].as_str()).unwrap().clone();
        apply_stmts(b, &mut st);
        let ghost before = incoming@;
        distribute(&b.term, &st, &mut incoming);
        proof {
            assert forall|to: Seq<char>| #[trigger] f@.order.contains(to) implies incoming@[to]@
                == gathered(f@, states, i + 1, to) by {
                lemma_gathered_step(f@, states, i as int, to);
                assert(incoming@.contains_key(to));
                assert(before[to]@ == gathered(f@, states, i as int, to));
            }
        }
        i = i + 1;
    }
    incoming
}

/// Runs the dataflow to its fixpoint. The result is the state on entry to each block.
pub fn fixpoint(f: &Function) -> (in_state: NameMap<NameSet>)
    requires
        f@.wf(),
    ensures
        states_of(in_state@) == in_states(f@),
        is_least_fixpoint(f@, states_of(in_state@)),
{
    let mut in_state = no_guards(f);
    let mut changed = true;
    let ghost mut n: nat = 0;
    while changed
        invariant
            f@.wf(),
            states_of(in_state@) == rounds(f@, n),
            !changed ==> n > 0 && rounds(f@, n) == rounds(f@, (n - 1) as nat),
            changed && n > 0 ==> rounds(f@, n) != rounds(f@, (n - 1) as nat),
        decreases height(f@) + 1 - n,
    {
        proof {
            if n > 0 {
                lemma_rounds_bounded(f@, (n - 1) as nat);
            }
        }
        changed = false;
        let ghost states = states_of(in_state@);
        let ghost next = round(f@, states);
        assert(states.dom() == bottom(f@).dom());
        let incoming = gather(f, &in_state);
        let mut i: usize = 0;
        while i < f.order.len()
            invariant
                f@.wf(),
                i <= f.order@.len() == f@.order.len(),
                states.dom() == bottom(f@).dom(),
                next == round(f@, states),
                incoming@.dom() == bottom(f@).dom(),
                forall|b: Seq<char>| #[trigger]
                    f@.order.contains(b) ==> incoming@[b]@ == gathered(
                        f@,
                        states,
                        f@.order.len() as int,
                        b,
                    ),
                in_state@.dom() == bottom(f@).dom(),
                forall|b: Seq<char>| #[trigger]
                    f@.order.contains(b) ==> in_state@[b]@ == if f@.order.take(i as int).contains(
                        b,
                    ) {
                        next[b]
                    } else {
                        states[b]
                    },
                changed <==> exists|j: int|
                    0 <= j < i && next[#[trigger] f@.order[j]] != states[f@.order[j]],
            decreases f.order@.len() - i,
        {
            let ghost id = f@.order[i as int];
            let ghost ids = f@.order.take(i as int);
            proof {
                assert(id == f.order@[i as int]@);
                assert(f@.order.contains(id));
                assert(incoming@.contains_key(id));
                assert(in_state@.contains_key(id));
                lemma_gathered_all(f@, states, id);
                assert(f@.order.take(i as int + 1) == ids.push(id));
                lemma_contains_push(ids, id);
            }
            let merged = if same_text(f.order[i].as_str(), f.entry.as_str()) {
                NameSet::new()
            } else {
                incoming.get(f.order[i].as_str()).unwrap().clone()
            };
            assert(merged@ == next[id]);
            if !merged.same_names(in_state.get(f.order[i].as_str()).unwrap()) {
                proof {
                    assert(in_state@[id]@ != next[id]);
                    assert(next[f@.order[i as int]] != states[f@.order[i as int]]);
                }
                in_state.insert(f.order[i].clone(), merged);
                changed = true;
            } else {
                proof {
                    assert(in_state@[id]@ == next[id]);
                    if next[id] != states[id] {
                        let j = choose|j: int| 0 <= j < ids.len() && ids[j] == id;
                        assert(f@.order[j] == id);
                        assert(next[f@.order[j]] != states[f@.order[j]]);
                    }
                }
            }
            i = i + 1;
        }
        proof {
            assert(f@.order.take(i as int) == f@.order);
            assert(states_of(in_state@) == next);
            n = n + 1;
            if !changed {
                assert forall|b: Seq<char>| f@.order.contains(b) implies next[b] == states[b] by {
                    let j = choose|j: int| 0 <= j < f@.order.len() && f@.order[j] == b;
                    assert(next[f@.order[j]] == states[f@.order[j]]);
                }
                assert(next == states);
            }
        }
    }
    proof {
        lemma_stable_round_is_least(f@, (n - 1) as nat);
        lemma_in_states(f@);
        lemma_least_is_unique(f@, states_of(in_state@), in_states(f@));
    }
    in_state
}

/// The kind of each guard local: that of its last acquisition.
pub open spec fn kinds_of(acquired: Seq<(Seq<char>, GuardKind)>) -> Map<Seq<char>, GuardKind>
    decreases acquired.len(),
{
    if acquired.len() == 0 {
        Map::empty()
    } else {
        kinds_of(acquired.drop_last()).insert(acquired.last().0, acquired.last().1)
    }
}

/// One more acquisition settles the kind of its local.
proof fn lemma_kinds_push(acquired: Seq<(Seq<char>, GuardKind)>, a: (Seq<char>, GuardKind))
    ensures
        kinds_of(acquired + seq![a]) == kinds_of(acquired).insert(a.0, a.1),
        acquired + seq![] == acquired,
{
    assert((acquired + seq![a]).drop_last() == acquired);
}

/// The kind of every guard that a function acquires.
pub fn collect_guard_kinds(f: &Function) -> (kinds: NameMap<GuardKind>)
    requires
        f@.wf(),
    ensures
        kinds@ == kinds_of(acquisitions(f@)),
{
    let mut kinds: NameMap<GuardKind> = NameMap::new();
    let ghost model = f@;
    let mut i: usize = 0;
    assert(model.order.take(0) == Seq::<Seq<char>>::empty());
    while i < f.order.len()
        invariant
            f@.wf(),
            model == f@,
            i <= f.order@.len() == model.order.len(),
            kinds@ == kinds_of(blocks_acquire(model.blocks, model.order.take(i as int))),
        decreases f.order@.len() - i,
    {
        let b = ordered_block(f, i);
        let ghost earlier = blocks_acquire(model.blocks, model.order.take(i as int));
        let ghost stmts = b@.stmts;
        let mut j: usize = 0;
        assert(stmts.take(0) == Seq::<StmtModel>::empty());
        assert(earlier + Seq::<(Seq<char>, GuardKind)>::empty() == earlier);
        while j < b.stmts.len()
            invariant
                j <= b.stmts@.len() == stmts.len(),
                stmts == b@.stmts,
                kinds@ == kinds_of(earlier + stmts_acquire(stmts.take(j as int))),
            decreases b.stmts@.len() - j,
        {
            proof {
                let done = stmts_acquire(stmts.take(j as int));
                let stmt = b.stmts@[j as int]@;
                assert(stmts.take(j as int + 1).drop_last() == stmts.take(j as int));
                assert(stmts.take(j as int + 1).last() == stmt);
                assert(earlier + (done + stmt_acquires(stmt)) == (earlier + done)
                    + stmt_acquires(stmt));
            }
            if let Stmt::Acquire { local, kind } = &b.stmts[j] {
                proof {
                    lemma_kinds_push(
                        earlier + stmts_acquire(stmts.take(j as int)),
                        (local@, *kind),
                    );
                }
                kinds.insert(local.clone(), *kind);
            }
            j = j + 1;
        }
        proof {
            assert(stmts.take(j as int) == stmts);
            assert(model.order.take(i as int + 1).drop_last() == model.order.take(i as int));
            assert(model.order.take(i as int + 1).last() == model.order[i as int]);
            assert(earlier + (stmts_acquire(stmts) + term_acquires(b@.term)) == (earlier
                + stmts_acquire(stmts)) + term_acquires(b@.term));
        }
        if let Term::TryAcquire { local, kind, success, fail } = &b.term {
            proof {
                lemma_kinds_push(earlier + stmts_acquire(stmts), (local@, *kind));
            }
            kinds.insert(local.clone(), *kind);
        }
        i = i + 1;
    }
    assert(model.order.take(i as int) == model.order);
    kinds
}

/// An FFI call site, and the context in which it executes.
#[derive(Debug, Clone)]
pub struct CallSite {
    pub func: String,
    pub bb: BbId,
    pub symbol: String,
    pub atomic_held: bool,
}

/// The model of a [`CallSite`].
#[verifier::ext_equal]
pub struct CallSiteModel {
    pub func: Seq<char>,
    pub bb: Seq<char>,
    pub symbol: Seq<char>,
    pub atomic_held: bool,
}

impl View for CallSite {
    type V = CallSiteModel;

    open spec fn view(&self) -> CallSiteModel {
        CallSiteModel {
            func: self.func@,
            bb: self.bb@,
            symbol: self.symbol@,
            atomic_held: self.atomic_held,
        }
    }
}

impl Placed for CallSiteModel {
    open spec fn location(self) -> Location {
        (self.func, self.bb)
    }
}

impl Placed for CallSite {
    open spec fn location(self) -> Location {
        self@.location()
    }
}

impl Located for CallSite {
    fn function_name(&self) -> (name: &str) {
        self.func.as_str()
    }

    fn block_id(&self) -> (id: &str) {
        self.bb.as_str()
    }
}

/// The models of call sites.
pub open spec fn sites_view(sites: Seq<CallSite>) -> Seq<CallSiteModel> {
    sites.map_values(|site: CallSite| site@)
}

/// The call site of block `id`, if the block ends in a call.
pub open spec fn site_in(f: FunctionModel, id: Seq<char>) -> Option<CallSiteModel> {
    let block = f.blocks[id];
    match block.term {
        TermModel::Call { symbol, target } => Some(
            CallSiteModel {
                func: f.name,
                bb: id,
                symbol,
                atomic_held: atomic(after_stmts(block.stmts, in_states(f)[id])),
            },
        ),
        _ => None,
    }
}

/// The call sites of the blocks `ids`, in their order.
pub open spec fn sites_in(f: FunctionModel, ids: Seq<Seq<char>>) -> Seq<CallSiteModel>
    decreases ids.len(),
{
    if ids.len() == 0 {
        seq![]
    } else {
        match site_in(f, ids.last()) {
            Some(site) => sites_in(f, ids.drop_last()).push(site),
            None => sites_in(f, ids.drop_last()),
        }
    }
}

/// The call sites of a function, in source order.
pub open spec fn call_sites(f: FunctionModel) -> Seq<CallSiteModel> {
    sites_in(f, f.order)
}

/// Analyzes one function: every FFI call site with its context, in order of location.
pub fn analyze_fn(f: &Function) -> (sites: Vec<CallSite>)
    requires
        f@.wf(),
    ensures
        is_stable_sort(call_sites(f@), sites_view(sites@)),
{
    let ghost model = f@;
    let in_state = fixpoint(f);
    let mut sites: Vec<CallSite> = Vec::new();
    let mut i: usize = 0;
    assert(model.order.take(0) == Seq::<Seq<char>>::empty());
    assert(sites_view(sites@) == Seq::<CallSiteModel>::empty());
    while i < f.order.len()
        invariant
            f@.wf(),
            model == f@,
            i <= f.order@.len() == model.order.len(),
            states_of(in_state@) == in_states(model),
            is_least_fixpoint(model, in_states(model)),
            sites_view(sites@) == sites_in(model, model.order.take(i as int)),
        decreases f.order@.len() - i,
    {
        let b = ordered_block(f, i);
        let ghost id = model.order[i as int];
        proof {
            assert(id == f.order@[i as int]@);
            assert(model.order.contains(id));
            assert(round(model, in_states(model)).contains_key(id));
            assert(model.order.take(i as int + 1).drop_last() == model.order.take(i as int));
            assert(model.order.take(i as int + 1).last() == id);
        }
        let mut st = in_state.get(f.order[i].as_str()).unwrap().clone();
        apply_stmts(b, &mut st);
        if let Term::Call { symbol, target } = &b.term {
            let site = CallSite {
                func: f.name.clone(),
                bb: f.order[i].clone(),
                symbol: symbol.clone(),
                atomic_held: !st.is_empty(),
            };
            let ghost before = sites@;
            sites.push(site);
            assert(sites_view(sites@) == sites_view(before).push(site@));
        }
        i = i + 1;
    }
    assert(model.order.take(i as int) == model.order);
    let ghost unsorted = sites@;
    let sorted = sort_by_location(sites);
    proof {
        lemma_stable_sort_view(unsorted, sorted@);
        assert(unsorted.map_values(|x: CallSite| x@) == sites_view(unsorted));
        assert(sorted@.map_values(|x: CallSite| x@) == sites_view(sorted@));
    }
    sorted
}

/// The call sites of functions, function by function, in source order.
pub open spec fn module_sites(funcs: Seq<FunctionModel>) -> Seq<CallSiteModel>
    decreases funcs.len(),
{
    if funcs.len() == 0 {
        seq![]
    } else {
        module_sites(funcs.drop_last()) + call_sites(funcs.last())
    }
}

/// Analyzes all functions of a program: every call site with its context, in order of location.
pub fn analyze_module(funcs: &[Function]) -> (sites: Vec<CallSite>)
    requires
        forall|i: int| 0 <= i < funcs@.len() ==> (#[trigger] funcs@[i])@.wf(),
    ensures
        is_stable_sort(module_sites(functions_view(funcs@)), sites_view(sites@)),
{
    let ghost models = functions_view(funcs@);
    let mut sites: Vec<CallSite> = Vec::new();
    let mut i: usize = 0;
    proof {
        assert(models.take(0) == Seq::<FunctionModel>::empty());
        assert(sites_view(sites@) == Seq::<CallSiteModel>::empty());
    }
    while i < funcs.len()
        invariant
            forall|j: int| 0 <= j < funcs@.len() ==> (#[trigger] funcs@[j])@.wf(),
            models == functions_view(funcs@),
            i <= funcs@.len() == models.len(),
            forall|at: Location| #[trigger]
                items_at(sites_view(sites@), at) == items_at(
                    module_sites(models.take(i as int)),
                    at,
                ),
        decreases funcs@.len() - i,
    {
        let ghost before = sites_view(sites@);
        let ghost earlier = module_sites(models.take(i as int));
        let mut more = analyze_fn(&funcs[i]);
        let ghost found = sites_view(more@);
        sites.append(&mut more);
        proof {
            assert(models.take(i as int + 1).drop_last() == models.take(i as int));
            assert(models.take(i as int + 1).last() == funcs@[i as int]@);
            assert(sites_view(sites@) == before + found);
            assert forall|at: Location| #[trigger]
                items_at(sites_view(sites@), at) == items_at(
                    module_sites(models.take(i as int + 1)),
                    at,
                ) by {
                lemma_items_at_add(before, found, at);
                lemma_items_at_add(earlier, call_sites(funcs@[i as int]@), at);
                assert(items_at(before, at) == items_at(earlier, at));
                assert(items_at(found, at) == items_at(call_sites(funcs@[i as int]@), at));
            }
        }
        i = i + 1;
    }
    assert(models.take(i as int) == models);
    let ghost unsorted = sites@;
    let sorted = sort_by_location(sites);
    proof {
        lemma_stable_sort_view(unsorted, sorted@);
        assert(unsorted.map_values(|x: CallSite| x@) == sites_view(unsorted));
        assert(sorted@.map_values(|x: CallSite| x@) == sites_view(sorted@));
        assert forall|at: Location| #[trigger] items_at(sites_view(sorted@), at) == items_at(
            module_sites(models),
            at,
        ) by {
            assert(items_at(sites_view(unsorted), at) == items_at(module_sites(models), at));
        }
    }
    sorted
}

/// A sleep-in-atomic violation: a call in atomic context to a function that may sleep.
#[derive(Debug, Clone)]
pub struct Violation {
    pub func: String,
    pub bb: BbId,
    pub symbol: String,
}

/// The model of a [`Violation`].
#[verifier::ext_equal]
pub struct ViolationModel {
    pub func: Seq<char>,
    pub bb: Seq<char>,
    pub symbol: Seq<char>,
}

impl View for Violation {
    type V = ViolationModel;

    open spec fn view(&self) -> ViolationModel {
        ViolationModel { func: self.func@, bb: self.bb@, symbol: self.symbol@ }
    }
}

impl Placed for ViolationModel {
    open spec fn location(self) -> Location {
        (self.func, self.bb)
    }
}

impl Placed for Violation {
    open spec fn location(self) -> Location {
        self@.location()
    }
}

impl Located for Violation {
    fn function_name(&self) -> (name: &str) {
        self.func.as_str()
    }

    fn block_id(&self) -> (id: &str) {
        self.bb.as_str()
    }
}

/// The models of violations.
pub open spec fn violations_view(violations: Seq<Violation>) -> Seq<ViolationModel> {
    violations.map_values(|violation: Violation| violation@)
}

/// A call site is a violation exactly when it is in atomic context and its callee may sleep.
pub open spec fn is_violation(site: CallSiteModel, can_sleep: Set<Seq<char>>) -> bool {
    site.atomic_held && can_sleep.contains(site.symbol)
}

/// The violation at a call site.
pub open spec fn violation_at(site: CallSiteModel) -> ViolationModel {
    ViolationModel { func: site.func, bb: site.bb, symbol: site.symbol }
}

/// The violations among call sites, in the order of the sites.
pub open spec fn violations_among(
    sites: Seq<CallSiteModel>,
    can_sleep: Set<Seq<char>>,
) -> Seq<ViolationModel>
    decreases sites.len(),
{
    if sites.len() == 0 {
        seq![]
    } else if is_violation(sites.last(), can_sleep) {
        violations_among(sites.drop_last(), can_sleep).push(violation_at(sites.last()))
    } else {
        violations_among(sites.drop_last(), can_sleep)
    }
}

/// The call-site join: reports exactly the sites in atomic context whose callee may sleep, in
/// order of location.
pub fn join(sites: &[CallSite], can_sleep: &NameSet) -> (violations: Vec<Violation>)
    ensures
        is_stable_sort(
            violations_among(sites_view(sites@), can_sleep@),
            violations_view(violations@),
        ),
{
    let ghost models = sites_view(sites@);
    let mut violations: Vec<Violation> = Vec::new();
    let mut i: usize = 0;
    assert(models.take(0) == Seq::<CallSiteModel>::empty());
    assert(violations_view(violations@) == Seq::<ViolationModel>::empty());
    while i < sites.len()
        invariant
            models == sites_view(sites@),
            i <= sites@.len() == models.len(),
            violations_view(violations@) == violations_among(models.take(i as int), can_sleep@),
        decreases sites@.len() - i,
    {
        proof {
            assert(models.take(i as int + 1).drop_last() == models.take(i as int));
            assert(models.take(i as int + 1).last() == sites@[i as int]@);
        }
        let site = &sites[i];
        if site.atomic_held && can_sleep.contains(site.symbol.as_str()) {
            let violation = Violation {
                func: site.func.clone(),
                bb: site.bb.clone(),
                symbol: site.symbol.clone(),
            };
            let ghost before = violations@;
            violations.push(violation);
            assert(violations_view(violations@) == violations_view(before).push(violation@));
        }
        i = i + 1;
    }
    assert(models.take(i as int) == models);
    let ghost unsorted = violations@;
    let sorted = sort_by_location(violations);
    proof {
        lemma_stable_sort_view(unsorted, sorted@);
        assert(unsorted.map_values(|x: Violation| x@) == violations_view(unsorted));
        assert(sorted@.map_values(|x: Violation| x@) == violations_view(sorted@));
    }
    sorted
}

/// The states that a map of sets stands for are those sets, block by block.
pub proof fn law_state_model_is_faithful(map: Map<Seq<char>, NameSet>, id: Seq<char>)
    ensures
        states_of(map).contains_key(id) <==> map.contains_key(id),
        map.contains_key(id) ==> states_of(map)[id] == map[id]@,
{
}

} // verus!
