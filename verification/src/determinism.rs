//! How far the report depends on the order in which a program is written.
//!
//! Not on the order of blocks, as long as the entry block stays the same; and not on the order of
//! functions, as long as sites that share a location are equal.

use crate::analysis::{
    call_sites, module_sites, site_in, sites_in, violations_among, CallSiteModel, ViolationModel,
};
use crate::ir::FunctionModel;
use crate::laws::{lemma_module_members, lemma_sites_members};
use crate::ordering::{
    is_stable_sort, items_at, lemma_in_order_unique, lemma_items_at_add, lemma_items_at_members,
    lemma_stable_sort_unique, Location, Placed,
};
use crate::report::{is_report, reports};
use crate::typestate::{
    arrives, below, in_states, is_fixpoint, lemma_in_states, lemma_least_is_unique, round, States,
};
use vstd::prelude::*;

verus! {

/// The same text for the same call sites and the same summary: there is one report.
pub proof fn law_report_is_determined(
    a: Seq<char>,
    b: Seq<char>,
    sites: Seq<CallSiteModel>,
    can_sleep: Option<Set<Seq<char>>>,
)
    requires
        is_report(a, sites, can_sleep),
        is_report(b, sites, can_sleep),
    ensures
        a == b,
{
    let (sorted_a, found_a) = choose|sorted: Seq<CallSiteModel>, violations: Seq<ViolationModel>|
        reports(a, sites, can_sleep, sorted, violations);
    let (sorted_b, found_b) = choose|sorted: Seq<CallSiteModel>, violations: Seq<ViolationModel>|
        reports(b, sites, can_sleep, sorted, violations);
    lemma_stable_sort_unique(sites, sorted_a, sorted_b);
    if let Some(callees) = can_sleep {
        lemma_stable_sort_unique(violations_among(sorted_a, callees), found_a, found_b);
    }
}

/// The same identifiers, in whatever order.
proof fn lemma_same_members<A>(a: Seq<A>, b: Seq<A>)
    requires
        a.to_multiset() == b.to_multiset(),
    ensures
        forall|x: A| a.contains(x) <==> b.contains(x),
{
    assert forall|x: A| a.contains(x) <==> b.contains(x) by {
        vstd::seq_lib::to_multiset_contains(a, x);
        vstd::seq_lib::to_multiset_contains(b, x);
    }
}

/// Functions that differ in the order of their blocks alone have the same states.
proof fn lemma_same_states(f: FunctionModel, g: FunctionModel)
    requires
        f.entry == g.entry,
        f.blocks == g.blocks,
        forall|id: Seq<char>| f.order.contains(id) <==> g.order.contains(id),
    ensures
        in_states(f) == in_states(g),
{
    assert forall|states: States| round(f, states) == round(g, states) by {
        let a = round(f, states);
        let b = round(g, states);
        assert(a.dom() == b.dom());
        assert forall|id: Seq<char>| a.contains_key(id) implies a[id] == b[id] by {
            assert forall|x: Seq<char>| a[id].contains(x) <==> b[id].contains(x) by {
                if a[id].contains(x) {
                    let (from, success) = choose|from: Seq<char>, success: bool|
                        arrives(f, states, from, success, id, x);
                    assert(arrives(g, states, from, success, id, x));
                }
                if b[id].contains(x) {
                    let (from, success) = choose|from: Seq<char>, success: bool|
                        arrives(g, states, from, success, id, x);
                    assert(arrives(f, states, from, success, id, x));
                }
            }
            assert(a[id] == b[id]);
        }
        assert(a == b);
    }
    lemma_in_states(f);
    lemma_in_states(g);
    let states = in_states(f);
    assert(is_fixpoint(g, states)) by {
        assert(round(f, states) == round(g, states));
    }
    assert forall|other: States| #[trigger] is_fixpoint(g, other) implies below(
        g,
        states,
        other,
    ) by {
        assert(round(f, other) == round(g, other));
        assert(is_fixpoint(f, other));
        assert(below(f, states, other));
    }
    lemma_least_is_unique(g, in_states(f), in_states(g));
}

/// The sites at one location are one site, as often as the block is listed.
proof fn lemma_sites_at(f: FunctionModel, ids: Seq<Seq<char>>, at: Location)
    ensures
        items_at(sites_in(f, ids), at) == match site_in(f, at.1) {
            Some(site) if f.name == at.0 => Seq::new(
                ids.to_multiset().count(at.1),
                |i: int| site,
            ),
            _ => seq![],
        },
    decreases ids.len(),
{
    ids.to_multiset_ensures();
    if ids.len() == 0 {
        assert(ids.to_multiset().count(at.1) == 0) by {
            assert(!ids.contains(at.1));
        }
        if let Some(site) = site_in(f, at.1) {
            assert(Seq::new(0, |i: int| site) == Seq::<CallSiteModel>::empty());
        }
    } else {
        let init = ids.drop_last();
        let last = ids.last();
        lemma_sites_at(f, init, at);
        init.to_multiset_ensures();
        assert(ids == init.push(last));
        assert(ids.to_multiset() == init.to_multiset().insert(last));
        if let Some(found) = site_in(f, last) {
            let before = sites_in(f, init);
            assert(before.push(found).drop_last() == before);
            if found.location() == at {
                assert(last == at.1);
                let n = init.to_multiset().count(at.1);
                assert(Seq::new(n, |i: int| found).push(found) == Seq::new(
                    n + 1,
                    |i: int| found,
                ));
            }
        }
        if let Some(site) = site_in(f, at.1) {
            if f.name == at.0 {
                assert(items_at(sites_in(f, ids), at) == Seq::new(
                    ids.to_multiset().count(at.1),
                    |i: int| site,
                ));
            }
        }
    }
}

/// The order of blocks is irrelevant as long as the entry block stays the same: such a function
/// analyzes to the same call sites in whatever order its blocks are listed.
pub proof fn law_block_order_is_irrelevant(
    f: FunctionModel,
    g: FunctionModel,
    sites_f: Seq<CallSiteModel>,
    sites_g: Seq<CallSiteModel>,
)
    requires
        f.name == g.name,
        f.entry == g.entry,
        f.blocks == g.blocks,
        f.order.to_multiset() == g.order.to_multiset(),
        is_stable_sort(call_sites(f), sites_f),
        is_stable_sort(call_sites(g), sites_g),
    ensures
        sites_f == sites_g,
{
    lemma_same_members(f.order, g.order);
    lemma_same_states(f, g);
    assert forall|at: Location| #[trigger] items_at(sites_f, at) == items_at(sites_g, at) by {
        lemma_sites_at(f, f.order, at);
        lemma_sites_at(g, g.order, at);
        assert(site_in(f, at.1) == site_in(g, at.1));
        assert(items_at(sites_f, at) == items_at(call_sites(f), at));
        assert(items_at(sites_g, at) == items_at(call_sites(g), at));
        if let Some(site) = site_in(f, at.1) {
            let n = f.order.to_multiset().count(at.1);
            assert(items_at(sites_f, at) == items_at(sites_g, at));
        }
    }
    lemma_in_order_unique(sites_f, sites_g);
}

/// Taking one function out takes its sites out.
proof fn lemma_module_remove(funcs: Seq<FunctionModel>, i: int, at: Location)
    requires
        0 <= i < funcs.len(),
    ensures
        items_at(module_sites(funcs), at).len() == items_at(
            module_sites(funcs.remove(i)),
            at,
        ).len() + items_at(call_sites(funcs[i]), at).len(),
    decreases funcs.len(),
{
    let init = funcs.drop_last();
    lemma_items_at_add(module_sites(init), call_sites(funcs.last()), at);
    if i == funcs.len() - 1 {
        assert(funcs.remove(i) == init);
    } else {
        let less = funcs.remove(i);
        assert(less.drop_last() == init.remove(i));
        assert(less.last() == funcs.last());
        lemma_module_remove(init, i, at);
        lemma_items_at_add(module_sites(less.drop_last()), call_sites(less.last()), at);
    }
}

/// As many sites at a location, in whatever order the functions are.
proof fn lemma_module_count(a: Seq<FunctionModel>, b: Seq<FunctionModel>, at: Location)
    requires
        a.to_multiset() == b.to_multiset(),
    ensures
        items_at(module_sites(a), at).len() == items_at(module_sites(b), at).len(),
    decreases b.len(),
{
    a.to_multiset_ensures();
    b.to_multiset_ensures();
    if b.len() > 0 {
        let last = b.len() - 1;
        lemma_same_members(a, b);
        assert(b.contains(b[last]));
        let i = choose|i: int| 0 <= i < a.len() && a[i] == b[last];
        assert(a.remove(i).to_multiset() == b.remove(last).to_multiset());
        lemma_module_remove(a, i, at);
        lemma_module_remove(b, last, at);
        lemma_module_count(a.remove(i), b.remove(last), at);
    } else {
        assert(a == b);
    }
}

/// When functions with the same name are the same function, a location has one site.
pub proof fn law_locations_are_unique_among_named_functions(
    funcs: Seq<FunctionModel>,
    x: CallSiteModel,
    y: CallSiteModel,
)
    requires
        forall|f: FunctionModel, g: FunctionModel|
            #[trigger] funcs.contains(f) && #[trigger] funcs.contains(g) && f.name == g.name ==> f
                == g,
        module_sites(funcs).contains(x),
        module_sites(funcs).contains(y),
        x.location() == y.location(),
    ensures
        x == y,
{
    lemma_module_members(funcs, x);
    lemma_module_members(funcs, y);
    let f = choose|f: FunctionModel| #[trigger] funcs.contains(f) && call_sites(f).contains(x);
    let g = choose|g: FunctionModel| #[trigger] funcs.contains(g) && call_sites(g).contains(y);
    lemma_sites_members(f, f.order, x);
    lemma_sites_members(g, g.order, y);
}

/// The order of functions is irrelevant as long as sites that share a location are equal: such a
/// program analyzes to the same call sites in whatever order its functions are written. Different
/// sites can share a location only when different functions have the same name.
pub proof fn law_function_order_is_irrelevant(
    a: Seq<FunctionModel>,
    b: Seq<FunctionModel>,
    sites_a: Seq<CallSiteModel>,
    sites_b: Seq<CallSiteModel>,
)
    requires
        a.to_multiset() == b.to_multiset(),
        is_stable_sort(module_sites(a), sites_a),
        is_stable_sort(module_sites(b), sites_b),
        forall|i: int, j: int|
            0 <= i < module_sites(a).len() && 0 <= j < module_sites(a).len() && (
            #[trigger] module_sites(a)[i]).location() == (
            #[trigger] module_sites(a)[j]).location() ==> module_sites(a)[i] == module_sites(a)[j],
    ensures
        sites_a == sites_b,
{
    lemma_same_members(a, b);
    let all = module_sites(a);
    assert forall|at: Location| #[trigger] items_at(sites_a, at) == items_at(sites_b, at) by {
        assert(items_at(sites_a, at) == items_at(module_sites(a), at));
        assert(items_at(sites_b, at) == items_at(module_sites(b), at));
        lemma_module_count(a, b, at);
        let xs = items_at(module_sites(a), at);
        let ys = items_at(module_sites(b), at);
        assert forall|i: int| 0 <= i < xs.len() implies xs[i] == ys[i] by {
            lemma_items_at_members(module_sites(a), at, xs[i]);
            lemma_items_at_members(module_sites(b), at, ys[i]);
            assert(xs.contains(xs[i]) && ys.contains(ys[i]));
            lemma_module_members(a, ys[i]);
            lemma_module_members(b, ys[i]);
            let f = choose|f: FunctionModel| #[trigger]
                b.contains(f) && call_sites(f).contains(ys[i]);
            assert(a.contains(f));
            let j = choose|j: int| 0 <= j < all.len() && all[j] == xs[i];
            let k = choose|k: int| 0 <= k < all.len() && all[k] == ys[i];
            assert(all[j].location() == all[k].location());
        }
        assert(xs == ys);
    }
    lemma_in_order_unique(sites_a, sites_b);
}

} // verus!
