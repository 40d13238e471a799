use guardstate::report::run;
use guardstate::summary::parse_summary;

const CAN_SLEEP: &str = "# callees that may sleep\nrust_helper_mutex_lock\nschedule # blocks\n\n  kmalloc_gfp_kernel  \n";

fn report(src: &str) -> String {
    let summary = parse_summary(CAN_SLEEP);
    match run(src, Some(&summary)) {
        Some(Ok(text)) => text,
        other => panic!("no report: {:?}", other),
    }
}

fn sites_only(src: &str) -> String {
    match run(src, None) {
        Some(Ok(text)) => text,
        other => panic!("no report: {:?}", other),
    }
}

fn expected(sites: &str, violations: &str, tally: &str) -> String {
    format!(
        "== atomic-context at FFI call sites ==\n{}\n== sleep-in-atomic violations (State=AtomicHeld & callee=CanSleep) ==\n{}\nsummary: {}\n",
        sites, violations, tally
    )
}

#[test]
fn t1_spinlock_sleep() {
    let src = "
fn driver_write
bb0:
  g0 = acquire spin_lock          # atomic context begins
  call rust_helper_mutex_lock -> bb1
bb1:
  drop g0                         # atomic context ends
  ret
";
    assert_eq!(
        report(src),
        expected(
            "driver_write::bb0 -> rust_helper_mutex_lock       [ATOMIC-HELD]\n",
            "VIOLATION driver_write::bb0 calls rust_helper_mutex_lock while holding atomic context\n",
            "1 call site(s), 1 violation(s)",
        )
    );
}

#[test]
fn t2_trylock_pathsens() {
    let src = "
fn driver_try
bb0:
  try t0 = spin_lock -> bb_ok bb_no
bb_ok:
  call rust_helper_mutex_lock -> bb_ret
bb_no:
  call rust_helper_mutex_lock -> bb_ret
bb_ret:
  ret
";
    assert_eq!(
        report(src),
        expected(
            "driver_try::bb_no -> rust_helper_mutex_lock       [SLEEPABLE]\ndriver_try::bb_ok -> rust_helper_mutex_lock       [ATOMIC-HELD]\n",
            "VIOLATION driver_try::bb_ok calls rust_helper_mutex_lock while holding atomic context\n",
            "2 call site(s), 1 violation(s)",
        )
    );
}

#[test]
fn t3_early_drop() {
    let src = "
fn driver_early
bb0:
  g0 = acquire raw_spin_lock
  drop_call g0 -> bb1
bb1:
  call rust_helper_mutex_lock -> bb2
bb2:
  ret
";
    assert_eq!(
        report(src),
        expected(
            "driver_early::bb1 -> rust_helper_mutex_lock       [SLEEPABLE]\n",
            "(none)\n",
            "1 call site(s), 0 violation(s)",
        )
    );
}

#[test]
fn t4_mutex_guard() {
    let src = "
fn driver_mutex
bb0:
  g0 = acquire mutex_lock
  call rust_helper_mutex_lock -> bb1
bb1:
  ret
";
    assert_eq!(
        report(src),
        expected(
            "driver_mutex::bb0 -> rust_helper_mutex_lock       [SLEEPABLE]\n",
            "(none)\n",
            "1 call site(s), 0 violation(s)",
        )
    );
}

#[test]
fn t5_nonsleeping_callee() {
    let src = "
fn driver_near
bb0:
  g0 = acquire spin_lock_irqsave
  call rust_helper_readl -> bb1
bb1:
  ret
";
    assert_eq!(
        report(src),
        expected(
            "driver_near::bb0 -> rust_helper_readl            [ATOMIC-HELD]\n",
            "(none)\n",
            "1 call site(s), 0 violation(s)",
        )
    );
}

#[test]
fn t6_forget() {
    let src = "
fn driver_forget
bb0:
  g0 = acquire spin_lock
  forget_call g0 -> bb1
bb1:
  call schedule -> bb2
bb2:
  ret
";
    assert_eq!(
        report(src),
        expected(
            "driver_forget::bb1 -> schedule                     [ATOMIC-HELD]\n",
            "VIOLATION driver_forget::bb1 calls schedule while holding atomic context\n",
            "1 call site(s), 1 violation(s)",
        )
    );
}

#[test]
fn t7_early_return() {
    let src = "
fn driver_qmark
bb0:
  g0 = acquire spin_lock
  goto bb_check
bb_check:
  try t0 = spin_lock -> bb_main bb_err
bb_err:
  drop g0
  call rust_helper_mutex_lock -> bb_ret
bb_main:
  call rust_helper_mutex_lock -> bb_ret
bb_ret:
  ret
";
    assert_eq!(
        report(src),
        expected(
            "driver_qmark::bb_err -> rust_helper_mutex_lock       [SLEEPABLE]\ndriver_qmark::bb_main -> rust_helper_mutex_lock       [ATOMIC-HELD]\n",
            "VIOLATION driver_qmark::bb_main calls rust_helper_mutex_lock while holding atomic context\n",
            "2 call site(s), 1 violation(s)",
        )
    );
}

#[test]
fn nested_guards_drop_one_stay_atomic() {
    let src = "
fn nested
bb0:
  a = acquire spin_lock
  b = acquire preempt_disable
  drop a
  call schedule -> bb1
bb1:
  storage_dead b
  call schedule -> bb2
bb2:
  ret
";
    assert_eq!(
        sites_only(src),
        "== atomic-context at FFI call sites ==\nnested::bb0 -> schedule                     [ATOMIC-HELD]\nnested::bb1 -> schedule                     [SLEEPABLE]\n"
    );
}

#[test]
fn guard_reaches_a_block_with_a_spaced_header() {
    let src = "
fn spaced
bb0:
  g = acquire spin_lock
  goto bb1
bb1 :
  call schedule -> bb2
bb2:
  ret
";
    assert_eq!(
        report(src),
        expected(
            "spaced::bb1 -> schedule                     [ATOMIC-HELD]\n",
            "VIOLATION spaced::bb1 calls schedule while holding atomic context\n",
            "1 call site(s), 1 violation(s)",
        )
    );
}

#[test]
fn merge_keeps_guard_of_one_branch() {
    let src = "
fn merge
bb0:
  try g = spin_lock_bh -> bb_m bb_m
bb_m:
  call schedule -> bb_end
bb_end:
  ret
";
    assert_eq!(
        sites_only(src),
        "== atomic-context at FFI call sites ==\nmerge::bb_m -> schedule                     [ATOMIC-HELD]\n"
    );
}

#[test]
fn guard_flows_around_a_loop() {
    let src = "
fn looped
bb0:
  goto bb1
bb1:
  call schedule -> bb2
bb2:
  g = acquire local_irq_save
  goto bb1
";
    assert_eq!(
        sites_only(src),
        "== atomic-context at FFI call sites ==\nlooped::bb1 -> schedule                     [ATOMIC-HELD]\n"
    );
}

#[test]
fn entry_is_always_entered_without_guards() {
    let src = "
fn back
bb0:
  call schedule -> bb1
bb1:
  g = acquire spin_lock
  goto bb0
";
    assert_eq!(
        sites_only(src),
        "== atomic-context at FFI call sites ==\nback::bb0 -> schedule                     [SLEEPABLE]\n"
    );
}

#[test]
fn unreachable_block_hands_its_guard_on() {
    let src = "
fn island
bb0:
  ret
bb_dead:
  g = acquire spin_lock
  goto bb_call
bb_call:
  call schedule -> bb_nowhere
";
    assert_eq!(
        sites_only(src),
        "== atomic-context at FFI call sites ==\nisland::bb_call -> schedule                     [ATOMIC-HELD]\n"
    );
}

#[test]
fn functions_are_sorted_by_name_then_block() {
    let src = "
fn zeta
bb1:
  call s -> bb0
bb0:
  call s -> bb1
fn alpha
bb10:
  call s -> bb2
bb2:
  call s -> bb10
";
    assert_eq!(
        sites_only(src),
        "== atomic-context at FFI call sites ==\nalpha::bb10 -> s                            [SLEEPABLE]\nalpha::bb2 -> s                            [SLEEPABLE]\nzeta::bb0 -> s                            [SLEEPABLE]\nzeta::bb1 -> s                            [SLEEPABLE]\n"
    );
}

#[test]
fn long_symbol_is_not_cut() {
    let src = "fn f\nbb0:\n call a_symbol_that_is_longer_than_28_characters -> bb1\n";
    assert_eq!(
        sites_only(src),
        "== atomic-context at FFI call sites ==\nf::bb0 -> a_symbol_that_is_longer_than_28_characters [SLEEPABLE]\n"
    );
}

#[test]
fn empty_program_has_an_empty_report() {
    assert_eq!(sites_only(""), "== atomic-context at FFI call sites ==\n");
    assert_eq!(report("# nothing\n"), expected("", "(none)\n", "0 call site(s), 0 violation(s)"));
}

#[test]
fn wrong_program_gives_the_parse_error() {
    assert_eq!(
        run("fn f\nbb0:\n  jump bb1\n", None),
        Some(Err("line 3: unrecognised statement (`jump bb1`)".to_string()))
    );
    assert_eq!(run("fn f\nbb0:\n  goto\n", None), None);
}
