use guardstate::ir::{Function, GuardKind, Stmt, Term};
use guardstate::parse::{parse_module, try_parse_module};

fn parsed(src: &str) -> Vec<Function> {
    match parse_module(src) {
        Ok(funcs) => funcs,
        Err(error) => panic!("{}", error),
    }
}

fn shown(src: &str) -> String {
    format!("{:?}", parsed(src))
}

fn error(src: &str) -> String {
    match parse_module(src) {
        Ok(funcs) => panic!("parsed: {:?}", funcs),
        Err(error) => error,
    }
}

#[test]
fn reads_every_form() {
    let src = "fn all
bb0:
  g0 = acquire spin_lock
  drop g0
  storage_dead g0
  call some symbol -> bb1
bb1:
  drop_call g0 -> bb2
bb2:
  forget_call g1 -> bb3
bb3:
  try t = mutex_lock -> bb4 bb5
bb4:
  goto bb5
bb5:
  ret
";
    let funcs = parsed(src);
    assert_eq!(funcs.len(), 1);
    let f = &funcs[0];
    assert_eq!(f.name, "all");
    assert_eq!(f.entry, "bb0");
    assert_eq!(f.order, vec!["bb0", "bb1", "bb2", "bb3", "bb4", "bb5"]);
    let b0 = f.block("bb0").unwrap();
    assert_eq!(b0.id, "bb0");
    assert_eq!(b0.stmts.len(), 3);
    assert!(matches!(&b0.stmts[0], Stmt::Acquire { local, kind: GuardKind::PreemptDisabling } if local == "g0"));
    assert!(matches!(&b0.stmts[1], Stmt::Drop { local } if local == "g0"));
    assert!(matches!(&b0.stmts[2], Stmt::StorageDead { local } if local == "g0"));
    assert!(matches!(&b0.term, Term::Call { symbol, target } if symbol == "some symbol" && target == "bb1"));
    assert!(matches!(&f.block("bb1").unwrap().term, Term::MemDrop { local, target } if local == "g0" && target == "bb2"));
    assert!(matches!(&f.block("bb2").unwrap().term, Term::MemForget { local, target } if local == "g1" && target == "bb3"));
    assert!(matches!(
        &f.block("bb3").unwrap().term,
        Term::TryAcquire { local, kind: GuardKind::Sleepable, success, fail } if local == "t" && success == "bb4" && fail == "bb5"
    ));
    assert!(matches!(&f.block("bb4").unwrap().term, Term::Goto { target } if target == "bb5"));
    assert!(matches!(&f.block("bb5").unwrap().term, Term::Ret));
    assert!(f.block("bb6").is_none());
}

#[test]
fn block_without_terminator_returns() {
    let funcs = parsed("fn f\nbb0:\n");
    assert!(matches!(funcs[0].block("bb0").unwrap().term, Term::Ret));
}

#[test]
fn last_terminator_counts() {
    let funcs = parsed("fn f\nbb0:\n goto bb1\n drop g\n goto bb2\n");
    let b = funcs[0].block("bb0").unwrap();
    assert_eq!(b.stmts.len(), 1);
    assert!(matches!(&b.term, Term::Goto { target } if target == "bb2"));
}

#[test]
fn later_block_of_the_same_name_replaces_the_earlier() {
    let funcs = parsed("fn f\nbb0:\n goto a\nbb0:\n goto b\n");
    assert_eq!(funcs[0].order, vec!["bb0", "bb0"]);
    assert!(matches!(&funcs[0].block("bb0").unwrap().term, Term::Goto { target } if target == "b"));
}

#[test]
fn function_without_blocks() {
    let funcs = parsed("fn a\nfn b extra words\n");
    assert_eq!(funcs.len(), 2);
    assert_eq!(funcs[0].name, "a");
    assert_eq!(funcs[0].entry, "");
    assert!(funcs[0].order.is_empty());
    assert_eq!(funcs[1].name, "b");
}

#[test]
fn all_colons_are_taken_off_a_header() {
    let funcs = parsed("fn f\nbb0::\n ret\n");
    assert_eq!(funcs[0].order, vec!["bb0"]);
}

#[test]
fn entry_is_the_first_named_block() {
    let funcs = parsed("fn f\n:\nbb1:\nbb2:\n");
    assert_eq!(funcs[0].order, vec!["", "bb1", "bb2"]);
    assert_eq!(funcs[0].entry, "bb1");
}

#[test]
fn layout_does_not_matter() {
    let plain = "fn f\nbb0:\ng = acquire spin_lock\ncall s -> bb0\n";
    let spread = "# a program\n\n  fn \t f   # name\r\n\r\n\u{a0}bb0:#header\n\tg  =   acquire\u{2003}spin_lock  \n\n call   s -> bb0";
    assert_eq!(shown(plain), shown(spread));
}

#[test]
fn white_space_before_the_colon_is_insignificant() {
    let funcs = parsed("fn f\nbb0 :\n  goto bb0\n");
    assert_eq!(funcs.len(), 1);
    let f = &funcs[0];
    assert_eq!(f.entry, "bb0");
    assert_eq!(f.order, vec!["bb0"]);
    let b = f.block("bb0").unwrap();
    assert_eq!(b.id, "bb0");
    assert!(b.stmts.is_empty());
    assert!(matches!(&b.term, Term::Goto { target } if target == "bb0"));
    for header in ["bb0:", "bb0\t:", "  bb0 \u{a0} : # entry", "bb0 : :", "bb0::", "bb0 ::"] {
        let src = format!("fn f\n{}\n  goto bb0\n", header);
        assert_eq!(shown(&src), shown("fn f\nbb0:\n  goto bb0\n"), "{}", header);
    }
}

#[test]
fn header_of_several_words_has_one_space_between_them() {
    for header in ["bb 0 :", "bb 0:", "bb  0:", "bb \t 0 ::"] {
        let funcs = parsed(&format!("fn f\n{}\n", header));
        assert_eq!(funcs[0].order, vec!["bb 0"], "{}", header);
    }
    assert_eq!(parsed("fn f\nbb0: bb1:\n")[0].order, vec!["bb0: bb1"]);
}

#[test]
fn same_lines_give_the_same_message() {
    assert_eq!(
        error("fn f # one\n\n bb0:\n  call  s\n"),
        "line 4: call needs -> (`call  s`)"
    );
    assert_eq!(
        error("  fn f\r\n# two\nbb0:# three\n\tcall  s # four\n"),
        "line 4: call needs -> (`call  s`)"
    );
}

#[test]
fn error_missing_function_name() {
    assert_eq!(error("fn\n"), "line 1: missing function name (`fn`)");
    assert_eq!(error("\n\n  fn  # none\n"), "line 3: missing function name (`fn`)");
}

#[test]
fn error_outside_a_function() {
    assert_eq!(error("bb0:\n"), "line 1: statement outside a function (`bb0:`)");
    assert_eq!(error("goto\n"), "line 1: statement outside a function (`goto`)");
}

#[test]
fn error_outside_a_block() {
    assert_eq!(error("fn f\nret\n"), "line 2: statement outside a basic block (`ret`)");
    assert_eq!(error("fn f\nbb0:\nfn g\n drop\n"), "line 4: statement outside a basic block (`drop`)");
}

#[test]
fn error_acquire_without_kind() {
    assert_eq!(error("fn f\nbb0:\n  g = acquire\n"), "line 3: acquire needs a kind (`g = acquire`)");
}

#[test]
fn error_missing_arrows() {
    assert_eq!(error("fn f\nbb0:\ncall s bb1"), "line 3: call needs -> (`call s bb1`)");
    assert_eq!(error("fn f\nbb0:\ndrop_call g"), "line 3: drop_call needs -> (`drop_call g`)");
    assert_eq!(error("fn f\nbb0:\nforget_call g"), "line 3: forget_call needs -> (`forget_call g`)");
    assert_eq!(error("fn f\nbb0:\ntry t = k"), "line 3: try needs -> (`try t = k`)");
}

#[test]
fn error_try() {
    assert_eq!(
        error("fn f\nbb0:\ntry t spin_lock -> a b"),
        "line 3: try syntax: try LOCAL = KIND -> succ fail (`try t spin_lock -> a b`)"
    );
    assert_eq!(
        error("fn f\nbb0:\ntry t = spin_lock -> a"),
        "line 3: try needs fail target (`try t = spin_lock -> a`)"
    );
}

#[test]
fn error_unrecognised_on_a_later_line() {
    let mut src = "fn f\nbb0:\n".to_string();
    for _ in 0..120 {
        src.push_str("drop g\n");
    }
    src.push_str("  huh?  # what\n");
    assert_eq!(error(&src), "line 123: unrecognised statement (`huh?`)");
}

#[test]
fn truncated_statements_are_told_apart() {
    for line in [
        "drop",
        "storage_dead",
        "goto",
        "call s ->",
        "drop_call g ->",
        "forget_call g ->",
        "try t = k ->",
        "try t = ->",
        "try -> =",
    ] {
        assert!(try_parse_module(&format!("fn f\nbb0:\n{}\n", line)).is_none(), "{}", line);
    }
}

#[test]
fn first_wrong_line_decides() {
    assert_eq!(
        error("fn f\nbb0:\nhuh\ngoto\n"),
        "line 3: unrecognised statement (`huh`)"
    );
    assert!(try_parse_module("fn f\nbb0:\ngoto\nhuh\n").is_none());
}

#[test]
fn arrow_may_stand_early() {
    let funcs = parsed("fn f\nbb0:\ncall -> bb1\nbb1:\ndrop_call -> bb2\nbb2:\ntry -> = k\n");
    let f = &funcs[0];
    assert!(matches!(&f.block("bb0").unwrap().term, Term::Call { symbol, target } if symbol.is_empty() && target == "bb1"));
    assert!(matches!(&f.block("bb1").unwrap().term, Term::MemDrop { local, target } if local == "->" && target == "bb2"));
    assert!(matches!(
        &f.block("bb2").unwrap().term,
        Term::TryAcquire { local, success, fail, .. } if local == "->" && success == "=" && fail == "k"
    ));
}
