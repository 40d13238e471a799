# guardstate

A verified analyzer for sleep-in-atomic bugs at the Rust to C FFI boundary.

Calling a function that may sleep while a preemption-disabling lock guard is live can hang a kernel.
The guard lives on the Rust side, the sleeping callee on the C side. `guardstate` reads a MIR-shaped
program, computes the context of each FFI call site, and joins it with a list of callees that may
sleep:

```
report(site)  <=>  the site is in atomic context, and its callee may sleep
```

## Use

```
guardstate <input.mir> [--summary <can_sleep.txt>]
```

The summary has one symbol per line, with `#` comments. Without one, only the context of each call
site is printed. With one, the violations and a tally follow.

```
fn driver_write
bb0:
  g0 = acquire spin_lock          # atomic context begins
  call rust_helper_mutex_lock -> bb1
bb1:
  drop g0                         # atomic context ends
  ret
```

The forms of a line are listed in `src/grammar.rs`.

## Layout

| Path | Contents |
| --- | --- |
| `src/ir.rs` | functions, blocks, statements, terminators, guard kinds |
| `src/scan.rs`, `src/grammar.rs`, `src/parse.rs` | from text to functions |
| `src/typestate.rs` | the states of a function, as the least solution of dataflow equations |
| `src/analysis.rs` | the fixpoint, the call sites, the join |
| `src/ordering.rs` | the order of output |
| `src/report.rs`, `src/summary.rs`, `src/cli.rs` | the report, the summary, the command line |
| `src/text.rs`, `src/names.rs` | text, and ordered sets and maps of names |
| `src/paths.rs`, `src/laws.rs`, `src/determinism.rs`, `src/layout.rs` | what holds of the whole |
| `app/main.rs` | reading files, printing, exit codes |
| `tests/` | programs with their reports, and the parts one by one |

## What is proved

- The functions of the library have exact contracts, from the program text to the text of the
  report. The derived `Clone` impls have none.
- No guard is lost: what a path holds on reaching a block is in the block's state. A guard carried
  back to the entry block is the exception, for that is always entered with none.
- A violation is reported if and only if a call in atomic context has a callee that may sleep.
- The fixpoint is the least one. It is reached within as many rounds as there are different blocks,
  times the different locals for preemption-disabling guards.
- The report does not depend on the order of a function's blocks, as long as its entry block stays
  the same, nor on the order of functions, as long as sites that share a location are equal. They
  are when no two different functions have the same name.
- White space and comments do not change what a program means.

One function of the standard library is trusted to do what its documentation says: `String::push`.
