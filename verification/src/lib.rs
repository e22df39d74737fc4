//! A compiler from pcap-filter expressions, the "primitives" of `tcpdump`, to classic BPF, and a small
//! interpreter that runs the result against a packet.
//!
//! Source text goes through the [`lexer`], the [`parser`], default expansion ([`desugar`]), code
//! generation with symbolic jumps ([`codegen`], [`irep`]) and the assembler ([`backpatch`]) to a
//! [`Program`], which the [`vm`] runs. [`semantics`] says which packets an expression accepts, and
//! [`compile`] promises that the program it returns accepts exactly those.

use vstd::prelude::*;

pub mod ast;
pub mod backpatch;
pub mod codegen;
pub mod correctness;
pub mod desugar;
pub mod error;
pub mod grammar;
pub mod grouping;
pub mod insn;
pub mod irep;
pub mod laws;
pub mod lexer;
pub mod linktype;
pub mod literal;
pub mod notation;
pub mod packet;
pub mod parser;
pub mod program;
pub mod relocation;
pub mod render;
pub mod semantics;
pub mod spans;
pub mod text;
pub mod vm;
pub mod wire;

pub use error::{CompileError, ErrorTag};
pub use insn::{Insn, KEEP_WHOLE_PACKET};
pub use linktype::LinkType;
pub use program::Program;

use ast::Expr;
use desugar::ExpandedExpr;
use error::Failure;

verus! {

/// The filter that a source text stands for, with its defaults written out.
pub open spec fn filter_of(src: Seq<char>) -> Result<ExpandedExpr, Failure> {
    match lexer::lexed(src) {
        Err(failure) => Err(failure),
        Ok(tokens) => match parser::parsed(tokens) {
            Err(failure) => Err(failure),
            Ok(expr) => Ok(desugar::expanded(expr)),
        },
    }
}

/// The instructions of a filter.
pub open spec fn compiled(src: Seq<char>, link_type: LinkType, snaplen: u32) -> Result<
    Seq<Insn>,
    Failure,
> {
    match filter_of(src) {
        Err(failure) => Err(failure),
        Ok(filter) => match codegen::generated(filter, link_type, snaplen) {
            Err(failure) => Err(failure),
            Ok(code) => backpatch::assembled(code),
        },
    }
}

/// Whether, on every packet, a program ends with `snaplen` if the filter accepts the packet, and
/// rejects it otherwise.
pub open spec fn decides(
    insns: Seq<Insn>,
    filter: ExpandedExpr,
    link_type: LinkType,
    snaplen: u32,
) -> bool {
    forall|packet: Seq<u8>| #[trigger]
        vm::status(insns, packet) == if semantics::accepts(filter, link_type, packet) {
            snaplen
        } else {
            0
        }
}

/// Compiles a filter expression.
///
/// `link_type` says which link-layer header the packets start with. `snaplen` is what the program
/// returns for a packet that it accepts; [`KEEP_WHOLE_PACKET`] keeps all of it.
///
/// The program ends with `ret snaplen` and `ret 0`, its only two `ret`s, is valid and decides the
/// filter. (A program of more than 2^32 instructions may hold an unconditional jump farther than its
/// operand can say.) A failure points into the source.
pub fn compile(src: &str, link_type: LinkType, snaplen: u32) -> (result: Result<
    Program,
    CompileError,
>)
    ensures
        match result {
            Ok(program) => {
                &&& compiled(src@, link_type, snaplen) == Ok::<Seq<Insn>, Failure>(program@)
                &&& filter_of(src@) is Ok
                &&& backpatch::ends_with_both_rets(program@, snaplen)
                &&& program@.len() <= 0x1_0000_0000 ==> {
                    &&& backpatch::valid_program(program@)
                    &&& decides(program@, filter_of(src@)->Ok_0, link_type, snaplen)
                }
            },
            Err(error) => {
                &&& compiled(src@, link_type, snaplen) == Err::<Seq<Insn>, Failure>(error@)
                &&& spans::inside(error.offset, spans::byte_len(src@))
            },
        },
{
    let lexed = lexer::lex(src);
    proof {
        spans::failures_point_into_the_source(src@, link_type, snaplen);
    }
    let tokens = match lexed {
        Ok(tokens) => tokens,
        Err(error) => {
            return Err(error);
        },
    };
    let ast: Expr = match parser::parse(tokens.as_slice()) {
        Ok(expr) => expr,
        Err(error) => {
            return Err(error);
        },
    };
    let expanded: ExpandedExpr = desugar::expand(&ast);
    proof {
        codegen::expanding_keeps_prefixes(ast);
        correctness::generated_code_is_well_formed(expanded, link_type, snaplen);
    }
    let ir = match codegen::generate(&expanded, link_type, snaplen) {
        Ok(ir) => ir,
        Err(error) => {
            return Err(error);
        },
    };
    match backpatch::assemble(ir) {
        Ok(insns) => {
            proof {
                laws::compiled_programs_return_at_the_end(src@, link_type, snaplen);
                if insns@.len() <= 0x1_0000_0000 {
                    laws::compiled_programs_decide(src@, link_type, snaplen);
                    laws::compiled_programs_are_valid(src@, link_type, snaplen);
                }
            }
            Ok(Program::from_validated(insns))
        },
        Err(error) => Err(error),
    }
}

} // verus!
