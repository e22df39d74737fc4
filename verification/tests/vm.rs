//! Running programs.

use cbpf_rs::vm::run;
use cbpf_rs::{Insn, KEEP_WHOLE_PACKET};

#[test]
fn ret_k_is_raw_and_unclamped() {
    let insns = [Insn::ret(KEEP_WHOLE_PACKET)];
    assert_eq!(run(&insns, &[1, 2, 3]), KEEP_WHOLE_PACKET);

    let insns = [Insn::ret(9999)];
    assert_eq!(
        run(&insns, &[1, 2, 3]),
        9999,
        "ret's k must not be clamped to packet.len()"
    );
}

#[test]
fn ret_zero_rejects() {
    let insns = [Insn::ret(0)];
    assert_eq!(run(&insns, &[1, 2, 3]), 0);
}

#[test]
fn out_of_bounds_abs_load_rejects_without_panicking() {
    let insns = [Insn::ldh_abs(100), Insn::ret(KEEP_WHOLE_PACKET)];
    assert_eq!(run(&insns, &[1, 2, 3]), 0);
}

#[test]
fn out_of_bounds_ind_load_rejects_without_panicking() {
    // x is 0 here (never set), so this reads packet[9999..10001].
    let insns = [Insn::ldh_ind(9999), Insn::ret(KEEP_WHOLE_PACKET)];
    assert_eq!(run(&insns, &[1, 2, 3]), 0);
}

#[test]
fn jump_past_end_of_program_rejects_without_panicking() {
    let insns = [Insn::jmp(50)];
    assert_eq!(run(&insns, &[]), 0);
}

#[test]
fn unknown_opcode_rejects_without_panicking() {
    let insns = [Insn {
        code: 0xffff,
        jt: 0,
        jf: 0,
        k: 0,
    }];
    assert_eq!(run(&insns, &[]), 0);
}

#[test]
fn ldx_msh_extracts_ip_header_length() {
    // packet[14]'s low nibble is the IHL (IP header length in 32-bit words);
    // ldx_msh(14) should put IHL*4 == 20 into X, so a later `[x + 0]` read lands on packet[20..22].
    let mut packet = [0u8; 22];
    packet[14] = 0x45; // version=4, IHL=5 -> X becomes 20
    packet[20] = 0x00;
    packet[21] = 0x50; // port 80, big-endian
    let insns = [
        Insn::ldx_msh(14),
        Insn::ldh_ind(0),
        Insn::jeq(80, 0, 1),
        Insn::ret(KEEP_WHOLE_PACKET),
        Insn::ret(0),
    ];
    assert_eq!(run(&insns, &packet), KEEP_WHOLE_PACKET);
}

#[test]
fn conditional_jump_targets_are_relative_to_the_next_instruction() {
    // jeq matches -> jt=0 (fall through to ret 1), jf=1 (skip ret 1, hit ret 2)
    let insns = [
        Insn::ldb_abs(0),
        Insn::jeq(5, 0, 1),
        Insn::ret(1),
        Insn::ret(2),
    ];
    assert_eq!(run(&insns, &[5]), 1);
    assert_eq!(run(&insns, &[6]), 2);
}
