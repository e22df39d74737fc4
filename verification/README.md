# cbpf_rs

A compiler from pcap-filter (`tcpdump`/`libpcap` "primitive") expressions to classic BPF, written and
proved in Verus, plus a small interpreter to run the result against a packet.

```rust
use cbpf_rs::{compile, LinkType, KEEP_WHOLE_PACKET};

let program = compile("tcp port 80", LinkType::Ethernet, KEEP_WHOLE_PACKET)?;
assert!(program.matches(&packet));
println!("{}", program.to_string());
```

What `compile` promises, and Verus proves: on every packet the program ends with the capture length if
the filter accepts the packet, and with `0` if it does not; it is a valid program (known opcodes, jumps
that stay inside, and two `ret`s, its last instructions); and a failure points at a place in the source
text.

## Layout

| Module | Contents |
| --- | --- |
| `text`, `render` | characters and strings; numerals and padding |
| `lexer`, `literal`, `parser`, `ast` | from source text to a syntax tree |
| `desugar` | default expansion of protocols and directions |
| `semantics` | which packets an expression accepts |
| `codegen`, `irep` | code with symbolic jumps |
| `backpatch`, `insn` | the assembler and the concrete instructions |
| `vm`, `packet` | the interpreter |
| `program`, `error`, `linktype` | what callers hold |
| `correctness`, `spans`, `grouping`, `relocation` | proofs about the whole |
| `laws` | what holds of the library as a whole |

Beyond what `vstd` assumes of the standard library, one thing is believed without proof: that
`String::push` appends a character.

`app/` is ordinary Rust around the library: `Display` and `Error`, a command-line dump, and attaching a
program to a socket through `libc`.
