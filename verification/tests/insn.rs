//! Lines of listings.

use cbpf_rs::insn::fmt_insn;
use cbpf_rs::{Insn, KEEP_WHOLE_PACKET};

/// An instruction, its index and its line in a `tcpdump -d` listing.
struct Line(Insn, usize, &'static str);

fn render(insn: Insn, index: usize) -> String {
    let mut out = String::new();
    fmt_insn(&mut out, insn, index);
    out
}

#[test]
fn matches_tcpdump_format() {
    let cases = [
        Line(Insn::ldh_abs(12), 0, "(000) ldh      [12]"),
        Line(
            Insn::jeq(0x800, 1, 6),
            1,
            "(001) jeq      #0x800           jt 3\tjf 8",
        ),
        Line(Insn::ldb_abs(23), 2, "(002) ldb      [23]"),
        Line(Insn::ldx_msh(14), 3, "(003) ldxb     4*([14]&0xf)"),
        Line(Insn::ldh_ind(14), 4, "(004) ldh      [x + 14]"),
        Line(Insn::ldw_abs(26), 9, "(009) ld       [26]"),
        Line(Insn::and_k(0xffffff00), 10, "(010) and      #0xffffff00"),
        Line(
            Insn::jset(0x1fff, 0, 3),
            5,
            "(005) jset     #0x1fff          jt 6\tjf 9",
        ),
        Line(Insn::jmp(2), 6, "(006) ja       9"),
        Line(
            Insn::ret(KEEP_WHOLE_PACKET),
            7,
            "(007) ret      #0xffffffff",
        ),
        Line(Insn::ret(0), 8, "(008) ret      #0x0"),
    ];
    for Line(insn, index, expected) in cases {
        assert_eq!(render(insn, index), expected);
    }
}
