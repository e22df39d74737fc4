//! Programs as callers see them.

use cbpf_rs::{Insn, Program, KEEP_WHOLE_PACKET};

#[test]
fn matches_is_sugar_for_run_nonzero() {
    let program = Program::from_validated(vec![Insn::ret(KEEP_WHOLE_PACKET)]);
    assert!(program.matches(&[1, 2, 3]));

    let program = Program::from_validated(vec![Insn::ret(0)]);
    assert!(!program.matches(&[1, 2, 3]));
}

#[test]
fn display_joins_instructions_with_newlines() {
    let program =
        Program::from_validated(vec![Insn::ldh_abs(12), Insn::ret(KEEP_WHOLE_PACKET)]);
    let rendered = program.to_string();
    assert_eq!(rendered, "(000) ldh      [12]\n(001) ret      #0xffffffff");
}
