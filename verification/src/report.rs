//! The report, as text.

use crate::analysis::{
    analyze_module, join, module_sites, sites_view, violations_among, violations_view, CallSite,
    CallSiteModel, Violation, ViolationModel,
};
use crate::names::NameSet;
use crate::ordering::is_stable_sort;
use crate::parse::{functions_view, message, parse, try_parse_module, OutcomeModel};
use crate::text::{append_decimal, decimal};
use vstd::prelude::*;
use vstd::string::StrSliceExecFns;

verus! {

/// `n` spaces.
pub open spec fn spaces(n: nat) -> Seq<char> {
    Seq::new(n, |i: int| ' ')
}

/// `s` with spaces behind it, up to `width` characters.
pub open spec fn padded(s: Seq<char>, width: nat) -> Seq<char> {
    if s.len() < width {
        s + spaces((width - s.len()) as nat)
    } else {
        s
    }
}

/// The name of a context.
pub open spec fn context_name(atomic_held: bool) -> Seq<char> {
    if atomic_held {
        "ATOMIC-HELD"@
    } else {
        "SLEEPABLE"@
    }
}

/// The line for a call site.
pub open spec fn site_line(site: CallSiteModel) -> Seq<char> {
    site.func + "::"@ + site.bb + " -> "@ + padded(site.symbol, 28) + " ["@ + context_name(
        site.atomic_held,
    ) + "]\n"@
}

/// The lines for call sites.
pub open spec fn site_lines(sites: Seq<CallSiteModel>) -> Seq<char>
    decreases sites.len(),
{
    if sites.len() == 0 {
        seq![]
    } else {
        site_lines(sites.drop_last()) + site_line(sites.last())
    }
}

/// The section on call sites.
pub open spec fn sites_section(sites: Seq<CallSiteModel>) -> Seq<char> {
    "== atomic-context at FFI call sites ==\n"@ + site_lines(sites)
}

/// The line for a violation.
pub open spec fn violation_line(violation: ViolationModel) -> Seq<char> {
    "VIOLATION "@ + violation.func + "::"@ + violation.bb + " calls "@ + violation.symbol
        + " while holding atomic context\n"@
}

/// The lines for violations.
pub open spec fn violation_lines(violations: Seq<ViolationModel>) -> Seq<char>
    decreases violations.len(),
{
    if violations.len() == 0 {
        seq![]
    } else {
        violation_lines(violations.drop_last()) + violation_line(violations.last())
    }
}

/// The section on violations, with the tally.
pub open spec fn violations_section(n_sites: nat, violations: Seq<ViolationModel>) -> Seq<char> {
    "\n== sleep-in-atomic violations (State=AtomicHeld & callee=CanSleep) ==\n"@ + (
    if violations.len() == 0 {
        "(none)\n"@
    } else {
        violation_lines(violations)
    }) + "\nsummary: "@ + decimal(n_sites) + " call site(s), "@ + decimal(violations.len())
        + " violation(s)\n"@
}

/// Appends `s` with spaces behind it.
fn append_padded(text: &mut String, s: &str, width: usize)
    ensures
        final(text)@ == old(text)@ + padded(s@, width as nat),
{
    text.append(s);
    let n = s.unicode_len();
    let mut i: usize = n;
    while i < width
        invariant
            n == s@.len(),
            n <= i,
            n <= width ==> i <= width,
            n <= width ==> text@ == old(text)@ + s@ + spaces((i - n) as nat),
            n > width ==> text@ == old(text)@ + s@,
        decreases width - i,
    {
        text.push(' ');
        i = i + 1;
        assert(spaces((i - n) as nat) == spaces((i - 1 - n) as nat).push(' '));
    }
    assert(text@ == old(text)@ + padded(s@, width as nat));
}

/// Renders the call sites.
pub fn render_sites(sites: &[CallSite]) -> (text: String)
    ensures
        text@ == sites_section(sites_view(sites@)),
{
    let ghost models = sites_view(sites@);
    let mut text = "== atomic-context at FFI call sites ==\n".to_owned();
    let ghost head = text@;
    let mut i: usize = 0;
    proof {
        assert(models.take(0) == Seq::<CallSiteModel>::empty());
        assert(text@ == head + site_lines(models.take(0)));
    }
    while i < sites.len()
        invariant
            models == sites_view(sites@),
            i <= sites@.len() == models.len(),
            text@ == head + site_lines(models.take(i as int)),
        decreases sites@.len() - i,
    {
        let ghost before = text@;
        let site = &sites[i];
        text.append(site.func.as_str());
        text.append("::");
        text.append(site.bb.as_str());
        text.append(" -> ");
        append_padded(&mut text, site.symbol.as_str(), 28);
        text.append(" [");
        if site.atomic_held {
            text.append("ATOMIC-HELD");
        } else {
            text.append("SLEEPABLE");
        }
        text.append("]\n");
        proof {
            assert(text@ == before + site_line(site@));
            assert(models.take(i as int + 1).drop_last() == models.take(i as int));
            assert(models.take(i as int + 1).last() == site@);
            assert(head + site_lines(models.take(i as int)) + site_line(site@) == head + (
            site_lines(models.take(i as int)) + site_line(site@)));
        }
        i = i + 1;
    }
    assert(models.take(i as int) == models);
    text
}

/// Renders the violations, and how many there are among how many call sites.
pub fn render_violations(n_sites: usize, violations: &[Violation]) -> (text: String)
    ensures
        text@ == violations_section(n_sites as nat, violations_view(violations@)),
{
    let ghost models = violations_view(violations@);
    let mut text =
        "\n== sleep-in-atomic violations (State=AtomicHeld & callee=CanSleep) ==\n".to_owned();
    let ghost head = text@;
    if violations.len() == 0 {
        text.append("(none)\n");
    } else {
        let mut i: usize = 0;
        proof {
            assert(models.take(0) == Seq::<ViolationModel>::empty());
            assert(text@ == head + violation_lines(models.take(0)));
        }
        while i < violations.len()
            invariant
                models == violations_view(violations@),
                i <= violations@.len() == models.len(),
                text@ == head + violation_lines(models.take(i as int)),
            decreases violations@.len() - i,
        {
            let ghost before = text@;
            let violation = &violations[i];
            text.append("VIOLATION ");
            text.append(violation.func.as_str());
            text.append("::");
            text.append(violation.bb.as_str());
            text.append(" calls ");
            text.append(violation.symbol.as_str());
            text.append(" while holding atomic context\n");
            proof {
                assert(text@ == before + violation_line(violation@));
                assert(models.take(i as int + 1).drop_last() == models.take(i as int));
                assert(models.take(i as int + 1).last() == violation@);
                assert(head + violation_lines(models.take(i as int)) + violation_line(violation@)
                    == head + (violation_lines(models.take(i as int)) + violation_line(
                    violation@,
                )));
            }
            i = i + 1;
        }
        assert(models.take(i as int) == models);
    }
    text.append("\nsummary: ");
    append_decimal(&mut text, n_sites);
    text.append(" call site(s), ");
    append_decimal(&mut text, violations.len());
    text.append(" violation(s)\n");
    text
}

/// `text` reports on `sites`, which are `sorted` in order, and on `violations` among them.
pub open spec fn reports(
    text: Seq<char>,
    sites: Seq<CallSiteModel>,
    can_sleep: Option<Set<Seq<char>>>,
    sorted: Seq<CallSiteModel>,
    violations: Seq<ViolationModel>,
) -> bool {
    &&& is_stable_sort(sites, sorted)
    &&& match can_sleep {
        None => text == sites_section(sorted),
        Some(callees) => {
            &&& is_stable_sort(violations_among(sorted, callees), violations)
            &&& text == sites_section(sorted) + violations_section(sorted.len(), violations)
        },
    }
}

/// `text` is the report on `sites`: the call sites, and with a summary the violations too.
pub open spec fn is_report(
    text: Seq<char>,
    sites: Seq<CallSiteModel>,
    can_sleep: Option<Set<Seq<char>>>,
) -> bool {
    exists|sorted: Seq<CallSiteModel>, violations: Seq<ViolationModel>|
        reports(text, sites, can_sleep, sorted, violations)
}

/// The whole analysis, from program text to report. Without a summary, the report has the call
/// sites only. `None` if a line of the program stops before its last operand and no line before it
/// is wrong.
pub fn run(src: &str, can_sleep: Option<&NameSet>) -> (result: Option<Result<String, String>>)
    ensures
        match parse(src@) {
            OutcomeModel::Parsed(funcs) => result matches Some(Ok(text)) && is_report(
                text@,
                module_sites(funcs),
                match can_sleep {
                    Some(callees) => Some(callees@),
                    None => None,
                },
            ),
            OutcomeModel::Failed { number, complaint, text } => result matches Some(Err(error))
                && error@ == message(number, complaint, text),
            OutcomeModel::Truncated => result is None,
        },
{
    let funcs = match try_parse_module(src) {
        Some(Ok(funcs)) => funcs,
        Some(Err(error)) => {
            return Some(Err(error));
        },
        None => {
            return None;
        },
    };
    let sites = analyze_module(funcs.as_slice());
    let mut text = render_sites(sites.as_slice());
    let ghost unsorted = module_sites(functions_view(funcs@));
    let ghost sorted = sites_view(sites@);
    match can_sleep {
        Some(callees) => {
            let violations = join(sites.as_slice(), callees);
            let section = render_violations(sites.len(), violations.as_slice());
            text.append(section.as_str());
            proof {
                let found = violations_view(violations@);
                assert(sorted.len() == sites@.len());
                assert(reports(text@, unsorted, Some(callees@), sorted, found));
            }
        },
        None => {
            assert(reports(text@, unsorted, None, sorted, Seq::empty()));
        },
    }
    Some(Ok(text))
}

} // verus!
