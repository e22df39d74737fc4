//! A finished program.

use crate::insn::{self, fmt_insn, Insn};
use crate::vm;
use vstd::prelude::*;
use vstd::string::*;

verus! {

/// A compiled program.
#[derive(Debug)]
pub struct Program {
    insns: Vec<Insn>,
}

impl View for Program {
    type V = Seq<Insn>;

    closed spec fn view(&self) -> Seq<Insn> {
        self.insns@
    }
}

/// The listing of the first `n` instructions: their lines, with line breaks between them.
pub open spec fn listing(insns: Seq<Insn>, n: nat) -> Seq<char>
    decreases n,
{
    if n == 0 {
        seq![]
    } else if n == 1 {
        insn::line(insns[0], 0)
    } else {
        listing(insns, (n - 1) as nat) + "\n"@ + insn::line(insns[n - 1], (n - 1) as nat)
    }
}

impl Program {
    /// The program with these instructions, whose jumps are already resolved.
    pub fn from_validated(insns: Vec<Insn>) -> (program: Program)
        ensures
            program@ == insns@,
    {
        Program { insns }
    }

    /// The instructions, in execution order.
    pub fn instructions(&self) -> (insns: &[Insn])
        ensures
            insns@ == self@,
    {
        self.insns.as_slice()
    }

    /// Runs this program against a packet: how many bytes of the packet to keep. `0` means reject.
    pub fn run(&self, packet: &[u8]) -> (kept: u32)
        ensures
            kept == vm::status(self@, packet@),
    {
        vm::run(self.insns.as_slice(), packet)
    }

    /// Whether `run(packet)` is not `0`.
    pub fn matches(&self, packet: &[u8]) -> (yes: bool)
        ensures
            yes == (vm::status(self@, packet@) != 0),
    {
        self.run(packet) != 0
    }

    /// The number of instructions as the kernel's `struct sock_fprog` holds it, or `None` if there
    /// are too many for its 16 bits.
    pub fn filter_len(&self) -> (len: Option<u16>)
        ensures
            match len {
                Some(n) => n == self@.len(),
                None => self@.len() > u16::MAX,
            },
    {
        let len: usize = self.insns.len();
        if len <= u16::MAX as usize {
            Some(len as u16)
        } else {
            None
        }
    }

    /// The program as `tcpdump -d` lists it.
    pub fn to_string(&self) -> (text: String)
        ensures
            text@ == listing(self@, self@.len()),
    {
        let mut text: String = String::new();
        let mut index: usize = 0;
        while index < self.insns.len()
            invariant
                index <= self.insns@.len(),
                self@ == self.insns@,
                text@ == listing(self@, index as nat),
            decreases self.insns@.len() - index,
        {
            if index > 0 {
                text.append("\n");
            }
            fmt_insn(&mut text, self.insns[index], index);
            index = index + 1;
        }
        text
    }
}

} // verus!
