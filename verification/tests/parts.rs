use guardstate::analysis::{
    analyze_fn, analyze_module, apply_stmts, collect_guard_kinds, fixpoint, join, CallSite,
};
use guardstate::cli::parse_args;
use guardstate::ir::{Block, Function, GuardKind, Stmt, Term};
use guardstate::names::{NameMap, NameSet};
use guardstate::ordering::sort_by_location;
use guardstate::parse::parse_module;
use guardstate::report::{render_sites, render_violations};
use guardstate::scan::is_white;
use guardstate::summary::parse_summary;
use guardstate::text::{append_decimal, chars_of, same_text, text_before, text_of};

fn set(names: &[&str]) -> NameSet {
    let mut set = NameSet::new();
    for name in names {
        set.insert(name.to_string());
    }
    set
}

fn function(src: &str) -> Function {
    match parse_module(src) {
        Ok(mut funcs) => funcs.remove(0),
        Err(error) => panic!("{}", error),
    }
}

fn site(func: &str, bb: &str, symbol: &str, atomic_held: bool) -> CallSite {
    CallSite { func: func.to_string(), bb: bb.to_string(), symbol: symbol.to_string(), atomic_held }
}

fn shown_sites(sites: &[CallSite]) -> Vec<String> {
    sites.iter().map(|s| format!("{} {} {} {}", s.func, s.bb, s.symbol, s.atomic_held)).collect()
}

#[test]
fn white_space_is_that_of_unicode() {
    for c in '\0'..=char::MAX {
        assert_eq!(is_white(c), c.is_whitespace(), "{:?}", c);
    }
}

#[test]
fn text_order_is_that_of_str() {
    let samples = ["", "a", "b", "aa", "ab", "bb1", "bb10", "bb2", "\u{e9}", "z\u{10000}", "z\u{ffff}", "Z", "_"];
    for a in samples {
        for b in samples {
            assert_eq!(text_before(a, b), a < b, "{} {}", a, b);
            assert_eq!(same_text(a, b), a == b, "{} {}", a, b);
        }
    }
}

#[test]
fn text_is_made_of_its_characters() {
    let chars = chars_of("a\u{e9}\u{1f512}b");
    assert_eq!(chars, vec!['a', '\u{e9}', '\u{1f512}', 'b']);
    assert_eq!(text_of(&chars, 1, 3), "\u{e9}\u{1f512}");
    assert_eq!(text_of(&chars, 2, 2), "");
}

#[test]
fn numbers_in_decimal() {
    for n in [0usize, 7, 10, 99, 100, 4096, usize::MAX] {
        let mut text = "n=".to_string();
        append_decimal(&mut text, n);
        assert_eq!(text, format!("n={}", n));
    }
}

#[test]
fn name_set_operations() {
    let mut s = set(&["b", "a", "c", "a"]);
    assert!(s.contains("a") && s.contains("b") && s.contains("c") && !s.contains("d"));
    s.remove("b");
    s.remove("zz");
    assert!(!s.contains("b"));
    assert!(s.same_names(&set(&["c", "a"])));
    assert!(!s.same_names(&set(&["c"])));
    assert!(s.is_subset(&set(&["a", "b", "c"])));
    let mut t = s.clone();
    t.extend(&set(&["x", "a"]));
    assert!(t.same_names(&set(&["a", "c", "x"])));
    assert!(!s.is_empty() && NameSet::new().is_empty());
}

#[test]
fn name_map_operations() {
    let mut m: NameMap<u32> = NameMap::new();
    m.insert("two".to_string(), 2);
    m.insert("one".to_string(), 1);
    m.insert("two".to_string(), 22);
    assert_eq!(m.get("one"), Some(&1));
    assert_eq!(m.get("two"), Some(&22));
    assert_eq!(m.get("three"), None);
    let copy = m.clone();
    assert_eq!(copy.get("two"), Some(&22));
}

#[test]
fn guard_kinds() {
    for name in ["spin_lock", "raw_spin_lock", "spin_lock_irqsave", "spin_lock_bh", "local_irq_save", "preempt_disable"] {
        assert_eq!(GuardKind::from_acquire_name(name), GuardKind::PreemptDisabling);
    }
    for name in ["mutex_lock", "down", "", "spin_lock ", "Spin_lock", "spin_loc"] {
        assert_eq!(GuardKind::from_acquire_name(name), GuardKind::Sleepable);
    }
    assert!(GuardKind::PreemptDisabling.raises_atomic());
    assert!(!GuardKind::Sleepable.raises_atomic());
}

#[test]
fn statements_change_the_state() {
    let block = Block {
        id: "bb0".to_string(),
        stmts: vec![
            Stmt::Acquire { local: "a".to_string(), kind: GuardKind::PreemptDisabling },
            Stmt::Acquire { local: "m".to_string(), kind: GuardKind::Sleepable },
            Stmt::Acquire { local: "b".to_string(), kind: GuardKind::PreemptDisabling },
            Stmt::Drop { local: "a".to_string() },
            Stmt::StorageDead { local: "old".to_string() },
        ],
        term: Term::Ret,
    };
    let mut st = set(&["old", "kept"]);
    apply_stmts(&block, &mut st);
    assert!(st.same_names(&set(&["b", "kept"])));
}

#[test]
fn states_of_a_diamond() {
    let f = function(
        "fn f\nbb0:\n a = acquire spin_lock\n try b = spin_lock -> bb1 bb2\nbb1:\n drop_call a -> bb3\nbb2:\n goto bb3\nbb3:\n ret\n",
    );
    let states = fixpoint(&f);
    assert!(states.get("bb0").unwrap().is_empty());
    assert!(states.get("bb1").unwrap().same_names(&set(&["a", "b"])));
    assert!(states.get("bb2").unwrap().same_names(&set(&["a"])));
    assert!(states.get("bb3").unwrap().same_names(&set(&["a", "b"])));
    assert!(states.get("bb4").is_none());
}

#[test]
fn last_acquisition_settles_the_kind() {
    let f = function(
        "fn f\nbb0:\n a = acquire spin_lock\n b = acquire mutex_lock\n a = acquire down\n try c = spin_lock -> bb1 bb1\nbb1:\n b = acquire raw_spin_lock\n",
    );
    let kinds = collect_guard_kinds(&f);
    assert_eq!(kinds.get("a"), Some(&GuardKind::Sleepable));
    assert_eq!(kinds.get("b"), Some(&GuardKind::PreemptDisabling));
    assert_eq!(kinds.get("c"), Some(&GuardKind::PreemptDisabling));
    assert_eq!(kinds.get("d"), None);
}

#[test]
fn block_order_does_not_leak() {
    let forward = function("fn f\nbb0:\n g = acquire spin_lock\n call s -> bb1\nbb1:\n call t -> bb2\nbb2:\n drop g\n call u -> bb0\n");
    let mut shuffled = forward.clone();
    shuffled.order = vec!["bb2".to_string(), "bb0".to_string(), "bb1".to_string()];
    let expected = vec!["f bb0 s true", "f bb1 t true", "f bb2 u false"];
    assert_eq!(shown_sites(&analyze_fn(&forward)), expected);
    assert_eq!(shown_sites(&analyze_fn(&shuffled)), expected);
}

#[test]
fn function_order_does_not_leak() {
    let a = function("fn a\nbb0:\n call s -> bb0\n");
    let b = function("fn b\nbb0:\n g = acquire spin_lock\n call s -> bb0\n");
    let expected = vec!["a bb0 s false", "b bb0 s true"];
    assert_eq!(shown_sites(&analyze_module(&[a.clone(), b.clone()])), expected);
    assert_eq!(shown_sites(&analyze_module(&[b, a])), expected);
}

#[test]
fn functions_of_one_name_keep_their_order() {
    let a = function("fn f\nbb0:\n call s -> bb0\n");
    let b = function("fn f\nbb0:\n g = acquire spin_lock\n call t -> bb0\n");
    assert_eq!(shown_sites(&analyze_module(&[a.clone(), b.clone()])), vec!["f bb0 s false", "f bb0 t true"]);
    assert_eq!(shown_sites(&analyze_module(&[b, a])), vec!["f bb0 t true", "f bb0 s false"]);
}

#[test]
fn block_listed_twice_is_two_sites() {
    let f = function("fn f\nbb0:\nbb0:\n call s -> bb1\n");
    assert_eq!(shown_sites(&analyze_fn(&f)), vec!["f bb0 s false", "f bb0 s false"]);
}

#[test]
fn sorting_is_stable() {
    let sites = vec![
        site("g", "bb0", "first", false),
        site("f", "bb1", "second", true),
        site("g", "bb0", "third", true),
        site("f", "bb0", "fourth", false),
    ];
    assert_eq!(
        shown_sites(&sort_by_location(sites)),
        vec!["f bb0 fourth false", "f bb1 second true", "g bb0 first false", "g bb0 third true"]
    );
}

#[test]
fn join_reports_atomic_sleepers_only() {
    let sites = [
        site("g", "bb1", "sleep", true),
        site("g", "bb0", "sleep", false),
        site("f", "bb9", "nap", true),
        site("f", "bb8", "work", true),
    ];
    let few: Vec<String> =
        join(&sites, &set(&["sleep"])).iter().map(|v| format!("{} {} {}", v.func, v.bb, v.symbol)).collect();
    assert_eq!(few, vec!["g bb1 sleep"]);
    let more: Vec<String> =
        join(&sites, &set(&["sleep", "nap"])).iter().map(|v| format!("{} {} {}", v.func, v.bb, v.symbol)).collect();
    assert_eq!(more, vec!["f bb9 nap", "g bb1 sleep"]);
    assert!(join(&sites, &NameSet::new()).is_empty());
}

#[test]
fn larger_summary_only_adds_violations() {
    let sites = [
        site("b", "bb0", "nap", true),
        site("a", "bb0", "sleep", true),
        site("b", "bb0", "sleep", true),
        site("a", "bb0", "sleep", true),
    ];
    let shown = |callees: &[&str]| -> Vec<String> {
        join(&sites, &set(callees)).iter().map(|v| format!("{} {}", v.func, v.symbol)).collect()
    };
    let many = shown(&["sleep", "nap"]);
    assert_eq!(many, vec!["a sleep", "a sleep", "b nap", "b sleep"]);
    let few: Vec<String> = many.into_iter().filter(|v| v.ends_with("sleep")).collect();
    assert_eq!(shown(&["sleep"]), few);
}

#[test]
fn summaries() {
    let s = parse_summary("a\n# comment\n  b c  # two words\n\n\td\r\n#");
    assert!(s.same_names(&set(&["a", "b c", "d"])));
    assert!(parse_summary("").is_empty());
}

#[test]
fn rendering() {
    assert_eq!(
        render_sites(&[site("f", "b", "\u{e9}", true)]),
        format!("== atomic-context at FFI call sites ==\nf::b -> {:<28} [ATOMIC-HELD]\n", "\u{e9}")
    );
    assert_eq!(
        render_violations(12, &[]),
        "\n== sleep-in-atomic violations (State=AtomicHeld & callee=CanSleep) ==\n(none)\n\nsummary: 12 call site(s), 0 violation(s)\n"
    );
}

fn args(words: &[&str]) -> Vec<String> {
    words.iter().map(|w| w.to_string()).collect()
}

#[test]
fn command_line_without_input_is_the_usage() {
    assert_eq!(
        parse_args(&args(&["guardstate"])).err(),
        Some("usage: guardstate <input.mir> [--summary <can_sleep.txt>]".to_string())
    );
}

#[test]
fn command_line_with_summaries() {
    let request = parse_args(&args(&["p", "in.mir"])).ok().unwrap();
    assert_eq!(request.input, "in.mir");
    assert!(request.summaries.is_empty());
    assert_eq!(request.error, None);
    let request = parse_args(&args(&["p", "in.mir", "--summary", "a", "--summary", "b"])).ok().unwrap();
    assert_eq!(request.summaries, vec!["a", "b"]);
    assert_eq!(request.error, None);
}

#[test]
fn command_line_errors_come_after_the_summaries_before_them() {
    let request = parse_args(&args(&["p", "in.mir", "--summary", "a", "-v", "--summary", "b"])).ok().unwrap();
    assert_eq!(request.summaries, vec!["a"]);
    assert_eq!(request.error, Some("error: unknown argument -v".to_string()));
    let request = parse_args(&args(&["p", "in.mir", "--summary"])).ok().unwrap();
    assert!(request.summaries.is_empty());
    assert_eq!(request.error, Some("error: --summary needs a path".to_string()));
}
