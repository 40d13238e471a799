//! What is listed: every call once, every violation once, and a line of the report for each.

use crate::analysis::{
    call_sites, module_sites, sites_in, sites_view, violation_at, violations_among,
    violations_view, CallSite, CallSiteModel, Violation, ViolationModel,
};
use crate::ir::{FunctionModel, TermModel};
use crate::ordering::{in_order, is_stable_sort, lemma_stable_sort_unique, location_lt, Placed};
use crate::parse::message;
use crate::report::{
    context_name, is_report, padded, reports, site_line, site_lines, sites_section, spaces,
    violation_line, violation_lines, violations_section,
};
use crate::program::lemma_lines_add;
use crate::reading::law_newline_ends_a_line;
use crate::scan::lines;
use crate::text::{decimal, law_decimal_reads_back};
use crate::transfer::law_atomic_iff_a_guard_is_live;
use crate::typestate::{after_stmts, in_states};
use vstd::prelude::*;

verus! {

/// A call site stands where its function and block say, and its model holds all that it holds.
pub proof fn law_call_site_model_is_faithful(site: CallSite)
    ensures
        site@ == (CallSiteModel {
            func: site.func@,
            bb: site.bb@,
            symbol: site.symbol@,
            atomic_held: site.atomic_held,
        }),
        site@.location() == (site.func@, site.bb@),
        site.location() == (site.func@, site.bb@),
{
}

/// A violation stands where its function and block say, and its model holds all that it holds.
pub proof fn law_violation_model_is_faithful(violation: Violation)
    ensures
        violation@ == (ViolationModel {
            func: violation.func@,
            bb: violation.bb@,
            symbol: violation.symbol@,
        }),
        violation@.location() == (violation.func@, violation.bb@),
        violation.location() == (violation.func@, violation.bb@),
{
}

/// The models of call sites and of violations are as many as these, one by one.
pub proof fn law_list_models_are_faithful(sites: Seq<CallSite>, violations: Seq<Violation>)
    ensures
        sites_view(sites).len() == sites.len(),
        forall|i: int| 0 <= i < sites.len() ==> #[trigger] sites_view(sites)[i] == sites[i]@,
        violations_view(violations).len() == violations.len(),
        forall|i: int|
            0 <= i < violations.len() ==> #[trigger] violations_view(violations)[i]
                == violations[i]@,
{
}

/// Every block that ends in a call, each time it is listed, gives one call site, in atomic context
/// or not; nothing else does. The site has the function's name, the block's identifier and the
/// callee, and is in atomic context if and only if a guard is live at the call.
pub proof fn law_every_call_is_listed_once(f: FunctionModel)
    ensures
        call_sites(f) == f.order.filter(|id: Seq<char>| f.blocks[id].term is Call).map_values(
            |id: Seq<char>|
                CallSiteModel {
                    func: f.name,
                    bb: id,
                    symbol: f.blocks[id].term->Call_symbol,
                    atomic_held: exists|g: Seq<char>|
                        after_stmts(f.blocks[id].stmts, in_states(f)[id]).contains(g),
                },
        ),
{
    lemma_every_call_is_listed_once(f, f.order);
}

proof fn lemma_every_call_is_listed_once(f: FunctionModel, ids: Seq<Seq<char>>)
    ensures
        sites_in(f, ids) == ids.filter(|id: Seq<char>| f.blocks[id].term is Call).map_values(
            |id: Seq<char>|
                CallSiteModel {
                    func: f.name,
                    bb: id,
                    symbol: f.blocks[id].term->Call_symbol,
                    atomic_held: exists|g: Seq<char>|
                        after_stmts(f.blocks[id].stmts, in_states(f)[id]).contains(g),
                },
        ),
    decreases ids.len(),
{
    reveal(Seq::filter);
    if ids.len() > 0 {
        let last = ids.last();
        lemma_every_call_is_listed_once(f, ids.drop_last());
        law_atomic_iff_a_guard_is_live(after_stmts(f.blocks[last].stmts, in_states(f)[last]));
    }
}

/// A call in any listed block is among the call sites, whatever its context.
pub proof fn law_no_call_is_left_out(f: FunctionModel, n: int, symbol: Seq<char>, target: Seq<char>)
    requires
        0 <= n < f.order.len(),
        f.blocks[f.order[n]].term == (TermModel::Call { symbol, target }),
    ensures
        exists|site: CallSiteModel| #[trigger]
            call_sites(f).contains(site) && site.func == f.name && site.bb == f.order[n]
                && site.symbol == symbol && (site.atomic_held <==> exists|g: Seq<char>|
                after_stmts(f.blocks[f.order[n]].stmts, in_states(f)[f.order[n]]).contains(g)),
{
    let id = f.order[n];
    let is_call = |id: Seq<char>| f.blocks[id].term is Call;
    law_every_call_is_listed_once(f);
    f.order.lemma_filter_contains(is_call, n);
    let calls = f.order.filter(is_call);
    let i = choose|i: int| 0 <= i < calls.len() && calls[i] == id;
    let site = call_sites(f)[i];
    assert(call_sites(f).contains(site));
}

/// The call sites of a program are those of its functions, one function after the other.
pub proof fn law_program_lists_every_function(funcs: Seq<FunctionModel>)
    ensures
        module_sites(funcs) == funcs.flat_map(|f: FunctionModel| call_sites(f)),
    decreases funcs.len(),
{
    let f = |f: FunctionModel| call_sites(f);
    if funcs.len() > 0 {
        let init = funcs.drop_last();
        law_program_lists_every_function(init);
        init.lemma_flat_map_push(f, funcs.last());
        assert(init.push(funcs.last()) == funcs);
    } else {
        assert(funcs.map_values(f) == Seq::<Seq<CallSiteModel>>::empty());
    }
}

/// Every site in atomic context whose callee may sleep gives one violation, in the order of the
/// sites; nothing else does.
pub proof fn law_every_sleeping_call_is_one_violation(
    sites: Seq<CallSiteModel>,
    can_sleep: Set<Seq<char>>,
)
    ensures
        violations_among(sites, can_sleep) == sites.filter(
            |site: CallSiteModel| site.atomic_held && can_sleep.contains(site.symbol),
        ).map_values(
            |site: CallSiteModel|
                ViolationModel { func: site.func, bb: site.bb, symbol: site.symbol },
        ),
        violations_among(sites, can_sleep).len() == sites.filter(
            |site: CallSiteModel| site.atomic_held && can_sleep.contains(site.symbol),
        ).len(),
    decreases sites.len(),
{
    reveal(Seq::filter);
    if sites.len() > 0 {
        law_every_sleeping_call_is_one_violation(sites.drop_last(), can_sleep);
    }
}

/// The line for a call site names function, block and callee. Spaces fill the callee up to 28
/// characters; a longer one is not cut. The context follows in brackets.
pub proof fn law_site_line(site: CallSiteModel)
    ensures
        site_line(site) == site.func + "::"@ + site.bb + " -> "@ + site.symbol + Seq::new(
            if site.symbol.len() < 28 {
                (28 - site.symbol.len()) as nat
            } else {
                0
            },
            |i: int| ' ',
        ) + (if site.atomic_held {
            " [ATOMIC-HELD]\n"@
        } else {
            " [SLEEPABLE]\n"@
        }),
{
    reveal_strlit(" [");
    reveal_strlit("ATOMIC-HELD");
    reveal_strlit("SLEEPABLE");
    reveal_strlit("]\n");
    reveal_strlit(" [ATOMIC-HELD]\n");
    reveal_strlit(" [SLEEPABLE]\n");
    assert(" ["@ + "ATOMIC-HELD"@ + "]\n"@ == " [ATOMIC-HELD]\n"@);
    assert(" ["@ + "SLEEPABLE"@ + "]\n"@ == " [SLEEPABLE]\n"@);
    assert(site_line(site) == site.func + "::"@ + site.bb + " -> "@ + site.symbol + Seq::new(
        if site.symbol.len() < 28 {
            (28 - site.symbol.len()) as nat
        } else {
            0
        },
        |i: int| ' ',
    ) + (if site.atomic_held {
        " [ATOMIC-HELD]\n"@
    } else {
        " [SLEEPABLE]\n"@
    }));
}

/// The line for a violation names function, block and callee.
pub proof fn law_violation_line(violation: ViolationModel)
    ensures
        violation_line(violation) == "VIOLATION "@ + violation.func + "::"@ + violation.bb
            + " calls "@ + violation.symbol + " while holding atomic context\n"@,
{
}

/// The section on call sites is its title and one line for each site, in order.
pub proof fn law_one_line_per_site(sites: Seq<CallSiteModel>)
    ensures
        sites_section(sites) == "== atomic-context at FFI call sites ==\n"@ + sites.flat_map(
            |site: CallSiteModel| site_line(site),
        ),
{
    lemma_site_lines(sites);
}

proof fn lemma_site_lines(sites: Seq<CallSiteModel>)
    ensures
        site_lines(sites) == sites.flat_map(|site: CallSiteModel| site_line(site)),
    decreases sites.len(),
{
    let f = |site: CallSiteModel| site_line(site);
    if sites.len() > 0 {
        let init = sites.drop_last();
        lemma_site_lines(init);
        init.lemma_flat_map_push(f, sites.last());
        assert(init.push(sites.last()) == sites);
    } else {
        assert(sites.map_values(f) == Seq::<Seq<char>>::empty());
    }
}

/// The section on violations is its title, one line for each violation, in order, or `(none)`, and
/// the tally of sites and violations.
pub proof fn law_one_line_per_violation(n_sites: nat, violations: Seq<ViolationModel>)
    ensures
        violations_section(n_sites, violations)
            == "\n== sleep-in-atomic violations (State=AtomicHeld & callee=CanSleep) ==\n"@ + (
        if violations.len() == 0 {
            "(none)\n"@
        } else {
            violations.flat_map(|violation: ViolationModel| violation_line(violation))
        }) + "\nsummary: "@ + decimal(n_sites) + " call site(s), "@ + decimal(violations.len())
            + " violation(s)\n"@,
{
    lemma_violation_lines(violations);
}

proof fn lemma_violation_lines(violations: Seq<ViolationModel>)
    ensures
        violation_lines(violations) == violations.flat_map(
            |violation: ViolationModel| violation_line(violation),
        ),
    decreases violations.len(),
{
    let f = |violation: ViolationModel| violation_line(violation);
    if violations.len() > 0 {
        let init = violations.drop_last();
        lemma_violation_lines(init);
        init.lemma_flat_map_push(f, violations.last());
        assert(init.push(violations.last()) == violations);
    } else {
        assert(violations.map_values(f) == Seq::<Seq<char>>::empty());
    }
}

/// Violations among sites that are in order are in order.
proof fn lemma_violations_in_order(sites: Seq<CallSiteModel>, can_sleep: Set<Seq<char>>)
    requires
        in_order(sites),
    ensures
        in_order(violations_among(sites, can_sleep)),
        forall|i: int|
            0 <= i < violations_among(sites, can_sleep).len() ==> exists|j: int|
                0 <= j < sites.len() && violation_at(#[trigger] sites[j])
                    == #[trigger] violations_among(sites, can_sleep)[i],
    decreases sites.len(),
{
    if sites.len() > 0 {
        let init = sites.drop_last();
        let before = violations_among(init, can_sleep);
        let after = violations_among(sites, can_sleep);
        assert forall|i: int, j: int| 0 <= i < j < init.len() implies !location_lt(
            (#[trigger] init[j]).location(),
            (#[trigger] init[i]).location(),
        ) by {
            assert(init[i] == sites[i] && init[j] == sites[j]);
        }
        lemma_violations_in_order(init, can_sleep);
        assert forall|i: int| 0 <= i < after.len() implies exists|j: int|
            0 <= j < sites.len() && violation_at(#[trigger] sites[j]) == #[trigger] after[i] by {
            if i < before.len() {
                assert(after[i] == before[i]);
                let j = choose|j: int|
                    0 <= j < init.len() && violation_at(#[trigger] init[j]) == before[i];
                assert(violation_at(sites[j]) == after[i]);
            } else {
                assert(violation_at(sites[sites.len() - 1]) == after[i]);
            }
        }
        assert forall|i: int, j: int| 0 <= i < j < after.len() implies !location_lt(
            (#[trigger] after[j]).location(),
            (#[trigger] after[i]).location(),
        ) by {
            assert(after[i] == before[i]);
            if j < before.len() {
                assert(after[j] == before[j]);
            } else {
                let k = choose|k: int|
                    0 <= k < init.len() && violation_at(#[trigger] init[k]) == before[i];
                assert(sites[k] == init[k]);
                assert(!location_lt(sites[sites.len() - 1].location(), sites[k].location()));
            }
        }
    }
}

/// The report is the section on the sorted call sites and, given a summary, the section on exactly
/// the sites in atomic context whose callee may sleep, in the same order. The tally counts both.
pub proof fn law_report_is_its_sections(
    text: Seq<char>,
    sites: Seq<CallSiteModel>,
    sorted: Seq<CallSiteModel>,
    can_sleep: Option<Set<Seq<char>>>,
)
    requires
        is_report(text, sites, can_sleep),
        is_stable_sort(sites, sorted),
    ensures
        can_sleep is None ==> text == sites_section(sorted),
        can_sleep matches Some(callees) ==> text == sites_section(sorted) + violations_section(
            sorted.len(),
            sorted.filter(
                |site: CallSiteModel| site.atomic_held && callees.contains(site.symbol),
            ).map_values(
                |site: CallSiteModel|
                    ViolationModel { func: site.func, bb: site.bb, symbol: site.symbol },
            ),
        ),
{
    let (found, violations) = choose|found: Seq<CallSiteModel>, violations: Seq<ViolationModel>|
        reports(text, sites, can_sleep, found, violations);
    lemma_stable_sort_unique(sites, found, sorted);
    if let Some(callees) = can_sleep {
        let among = violations_among(sorted, callees);
        lemma_violations_in_order(sorted, callees);
        lemma_stable_sort_unique(among, violations, among);
        law_every_sleeping_call_is_one_violation(sorted, callees);
    }
}

/// The message for a wrong line gives the line's number, what is wrong, and what the line says.
pub proof fn law_message(number: nat, complaint: Seq<char>, text: Seq<char>)
    ensures
        message(number, complaint, text) == "line "@ + decimal(number) + ": "@ + complaint
            + " (`"@ + text + "`)"@,
{
}

/// No newline in a name.
pub open spec fn on_one_line(name: Seq<char>) -> bool {
    !name.contains('\n')
}

proof fn lemma_on_one_line_add(a: Seq<char>, b: Seq<char>)
    requires
        on_one_line(a),
        on_one_line(b),
    ensures
        on_one_line(a + b),
{
    if (a + b).contains('\n') {
        let i = choose|i: int| 0 <= i < (a + b).len() && (a + b)[i] == '\n';
        if i < a.len() {
            assert(a.contains(a[i]));
        } else {
            assert(b.contains(b[i - a.len()]));
        }
    }
}

/// What ends in a newline, and has none before, is one line.
proof fn lemma_one_line(line: Seq<char>)
    requires
        on_one_line(line),
    ensures
        lines(line + seq!['\n']) == seq![line],
{
    let none = Seq::<char>::empty();
    law_newline_ends_a_line(line, none);
    assert(line + seq!['\n'] + none == line + seq!['\n']);
    assert(seq![line] + lines(none) == seq![line]);
}

/// Texts of one line each make as many lines, in order.
proof fn lemma_lines_of_flat_map<T>(
    items: Seq<T>,
    full: spec_fn(T) -> Seq<char>,
    cut: spec_fn(T) -> Seq<char>,
)
    requires
        forall|i: int|
            0 <= i < items.len() ==> on_one_line(cut(#[trigger] items[i])) && full(items[i])
                == cut(items[i]) + seq!['\n'],
    ensures
        lines(items.flat_map(full)) == items.map_values(cut),
        items.flat_map(full).len() == 0 || items.flat_map(full).last() == '\n',
    decreases items.len(),
{
    if items.len() == 0 {
        assert(items.map_values(full) == Seq::<Seq<char>>::empty());
        assert(lines(items.flat_map(full)) == items.map_values(cut));
    } else {
        let init = items.drop_last();
        let last = items[items.len() - 1];
        assert forall|i: int| 0 <= i < init.len() implies on_one_line(cut(#[trigger] init[i]))
            && full(init[i]) == cut(init[i]) + seq!['\n'] by {
            assert(init[i] == items[i]);
        }
        lemma_lines_of_flat_map(init, full, cut);
        init.lemma_flat_map_push(full, last);
        assert(init.push(last) == items);
        assert(items.flat_map(full) == init.flat_map(full) + (cut(last) + seq!['\n']));
        lemma_lines_add(init.flat_map(full), cut(last) + seq!['\n']);
        lemma_one_line(cut(last));
        assert(lines(items.flat_map(full)) == items.map_values(cut));
    }
}

/// The line for a violation, without the newline.
pub open spec fn violation_words(violation: ViolationModel) -> Seq<char> {
    "VIOLATION "@ + violation.func + "::"@ + violation.bb + " calls "@ + violation.symbol
        + " while holding atomic context"@
}

proof fn lemma_violation_line_is_one(violation: ViolationModel)
    requires
        on_one_line(violation.func),
        on_one_line(violation.bb),
        on_one_line(violation.symbol),
    ensures
        on_one_line(violation_words(violation)),
        violation_line(violation) == violation_words(violation) + seq!['\n'],
{
    reveal_strlit("VIOLATION ");
    reveal_strlit("::");
    reveal_strlit(" calls ");
    reveal_strlit(" while holding atomic context");
    reveal_strlit(" while holding atomic context\n");
    let a = "VIOLATION "@ + violation.func;
    let b = a + "::"@;
    let c = b + violation.bb;
    let d = c + " calls "@;
    let e = d + violation.symbol;
    lemma_on_one_line_add("VIOLATION "@, violation.func);
    lemma_on_one_line_add(a, "::"@);
    lemma_on_one_line_add(b, violation.bb);
    lemma_on_one_line_add(c, " calls "@);
    lemma_on_one_line_add(d, violation.symbol);
    lemma_on_one_line_add(e, " while holding atomic context"@);
    assert(" while holding atomic context\n"@ == " while holding atomic context"@ + seq!['\n']);
    assert(violation_line(violation) == violation_words(violation) + seq!['\n']);
}

/// Reading the section on violations line by line gives a blank line, the title, one line for each
/// violation, which names it, another blank line and the tally.
pub proof fn law_violations_read_back(n_sites: nat, violations: Seq<ViolationModel>)
    requires
        violations.len() > 0,
        forall|i: int|
            0 <= i < violations.len() ==> on_one_line((#[trigger] violations[i]).func)
                && on_one_line(violations[i].bb) && on_one_line(violations[i].symbol),
    ensures
        ({
            let read = lines(violations_section(n_sites, violations));
            &&& read.len() == violations.len() + 4
            &&& read[0].len() == 0
            &&& read[1]
                == "== sleep-in-atomic violations (State=AtomicHeld & callee=CanSleep) =="@
            &&& forall|i: int|
                0 <= i < violations.len() ==> #[trigger] read[i + 2] == "VIOLATION "@
                    + violations[i].func + "::"@ + violations[i].bb + " calls "@
                    + violations[i].symbol + " while holding atomic context"@
            &&& read[violations.len() as int + 2].len() == 0
            &&& read[violations.len() as int + 3] == "summary: "@ + decimal(n_sites)
                + " call site(s), "@ + decimal(violations.len()) + " violation(s)"@
        }),
{
    let full = |violation: ViolationModel| violation_line(violation);
    let cut = |violation: ViolationModel| violation_words(violation);
    law_one_line_per_violation(n_sites, violations);
    assert forall|i: int| 0 <= i < violations.len() implies on_one_line(
        cut(#[trigger] violations[i]),
    ) && full(violations[i]) == cut(violations[i]) + seq!['\n'] by {
        lemma_violation_line_is_one(violations[i]);
    }
    lemma_lines_of_flat_map(violations, full, cut);
    reveal_strlit("\n== sleep-in-atomic violations (State=AtomicHeld & callee=CanSleep) ==\n");
    reveal_strlit("== sleep-in-atomic violations (State=AtomicHeld & callee=CanSleep) ==");
    reveal_strlit("\nsummary: ");
    reveal_strlit("summary: ");
    reveal_strlit(" call site(s), ");
    reveal_strlit(" violation(s)\n");
    reveal_strlit(" violation(s)");
    let none = Seq::<char>::empty();
    let newline = seq!['\n'];
    let title = "== sleep-in-atomic violations (State=AtomicHeld & callee=CanSleep) =="@;
    let middle = violations.flat_map(full);
    let tally = "summary: "@ + decimal(n_sites) + " call site(s), "@ + decimal(violations.len())
        + " violation(s)"@;
    assert("\n== sleep-in-atomic violations (State=AtomicHeld & callee=CanSleep) ==\n"@ == newline
        + title + newline);
    assert("\nsummary: "@ == newline + "summary: "@);
    assert(" violation(s)\n"@ == " violation(s)"@ + newline);
    let section = violations_section(n_sites, violations);
    assert(section == none + newline + (title + newline + (middle + (none + newline + (tally
        + newline)))));
    assert(on_one_line(title));
    lemma_tally_is_one_line(n_sites, violations.len());
    law_newline_ends_a_line(none, title + newline + (middle + (none + newline + (tally
        + newline))));
    law_newline_ends_a_line(title, middle + (none + newline + (tally + newline)));
    lemma_lines_add(middle, none + newline + (tally + newline));
    law_newline_ends_a_line(none, tally + newline);
    lemma_one_line(tally);
    let read = lines(section);
    assert(read == seq![none] + (seq![title] + (violations.map_values(cut) + (seq![none] + seq![
        tally,
    ]))));
    assert forall|i: int| 0 <= i < violations.len() implies #[trigger] read[i + 2] == "VIOLATION "@
        + violations[i].func + "::"@ + violations[i].bb + " calls "@ + violations[i].symbol
        + " while holding atomic context"@ by {
        assert(read[i + 2] == cut(violations[i]));
    }
}

proof fn lemma_decimal_is_one_line(n: nat)
    ensures
        on_one_line(decimal(n)),
{
    law_decimal_reads_back(n);
    if decimal(n).contains('\n') {
        let i = choose|i: int| 0 <= i < decimal(n).len() && decimal(n)[i] == '\n';
        assert('0' <= decimal(n)[i]);
    }
}

proof fn lemma_tally_is_one_line(n_sites: nat, n_violations: nat)
    ensures
        on_one_line(
            "summary: "@ + decimal(n_sites) + " call site(s), "@ + decimal(n_violations)
                + " violation(s)"@,
        ),
{
    reveal_strlit("summary: ");
    reveal_strlit(" call site(s), ");
    reveal_strlit(" violation(s)");
    let a = "summary: "@ + decimal(n_sites);
    let b = a + " call site(s), "@;
    let c = b + decimal(n_violations);
    lemma_decimal_is_one_line(n_sites);
    lemma_decimal_is_one_line(n_violations);
    lemma_on_one_line_add("summary: "@, decimal(n_sites));
    lemma_on_one_line_add(a, " call site(s), "@);
    lemma_on_one_line_add(b, decimal(n_violations));
    lemma_on_one_line_add(c, " violation(s)"@);
}

/// The line for a call site, without the newline.
pub open spec fn site_words(site: CallSiteModel) -> Seq<char> {
    site.func + "::"@ + site.bb + " -> "@ + padded(site.symbol, 28) + " ["@ + context_name(
        site.atomic_held,
    ) + "]"@
}

proof fn lemma_site_line_is_one(site: CallSiteModel)
    requires
        on_one_line(site.func),
        on_one_line(site.bb),
        on_one_line(site.symbol),
    ensures
        on_one_line(site_words(site)),
        site_line(site) == site_words(site) + seq!['\n'],
{
    reveal_strlit("::");
    reveal_strlit(" -> ");
    reveal_strlit(" [");
    reveal_strlit("]");
    reveal_strlit("]\n");
    reveal_strlit("ATOMIC-HELD");
    reveal_strlit("SLEEPABLE");
    let symbol = padded(site.symbol, 28);
    let a = site.func + "::"@;
    let b = a + site.bb;
    let c = b + " -> "@;
    let d = c + symbol;
    let e = d + " ["@;
    let g = e + context_name(site.atomic_held);
    if site.symbol.len() < 28 {
        lemma_on_one_line_add(site.symbol, spaces((28 - site.symbol.len()) as nat));
    }
    lemma_on_one_line_add(site.func, "::"@);
    lemma_on_one_line_add(a, site.bb);
    lemma_on_one_line_add(b, " -> "@);
    lemma_on_one_line_add(c, symbol);
    lemma_on_one_line_add(d, " ["@);
    lemma_on_one_line_add(e, context_name(site.atomic_held));
    lemma_on_one_line_add(g, "]"@);
    assert("]\n"@ == "]"@ + seq!['\n']);
    assert(site_line(site) == site_words(site) + seq!['\n']);
}

/// Reading the section on call sites line by line gives the title and one line for each site, in
/// order.
pub proof fn law_sites_read_back(sites: Seq<CallSiteModel>)
    requires
        forall|i: int|
            0 <= i < sites.len() ==> on_one_line((#[trigger] sites[i]).func) && on_one_line(
                sites[i].bb,
            ) && on_one_line(sites[i].symbol),
    ensures
        ({
            let read = lines(sites_section(sites));
            &&& read.len() == sites.len() + 1
            &&& read[0] == "== atomic-context at FFI call sites =="@
            &&& forall|i: int|
                0 <= i < sites.len() ==> #[trigger] read[i + 1] + seq!['\n'] == site_line(sites[i])
        }),
{
    let full = |site: CallSiteModel| site_line(site);
    let cut = |site: CallSiteModel| site_words(site);
    law_one_line_per_site(sites);
    assert forall|i: int| 0 <= i < sites.len() implies on_one_line(cut(#[trigger] sites[i]))
        && full(sites[i]) == cut(sites[i]) + seq!['\n'] by {
        lemma_site_line_is_one(sites[i]);
    }
    lemma_lines_of_flat_map(sites, full, cut);
    reveal_strlit("== atomic-context at FFI call sites ==\n");
    reveal_strlit("== atomic-context at FFI call sites ==");
    let title = "== atomic-context at FFI call sites =="@;
    assert("== atomic-context at FFI call sites ==\n"@ == title + seq!['\n']);
    law_newline_ends_a_line(title, sites.flat_map(full));
    let read = lines(sites_section(sites));
    assert(read == seq![title] + sites.map_values(cut));
    assert forall|i: int| 0 <= i < sites.len() implies #[trigger] read[i + 1] + seq!['\n']
        == site_line(sites[i]) by {
        lemma_site_line_is_one(sites[i]);
        assert(read[i + 1] == cut(sites[i]));
    }
}

} // verus!
