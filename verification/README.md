# lorenz

Lorenz is a small language for chaotic systems: its values are probability
clouds (a mean, a variance that grows exponentially with time, and
sensitivities to other variables), and `collapse` samples one number from a
cloud.

```
let pressure = chaotic(101.0, 0.1)
let temp = chaotic(20.0, 0.5)
collapse(propagate(pressure + temp, 1.0))
```

## Layout

- `src/` is the verified library (Verus):
  - `lexer.rs`, `parser.rs`: source text to tokens to an expression tree,
    specified by recursive specification functions of the grammar; `//`
    starts a comment that runs to the end of the line;
  - `messages.rs`: the texts of lexing and parsing errors;
  - `compiler.rs`: the expression tree to bytecode;
  - `state.rs`: variables by name and symmetric pairwise covariances;
  - `eval.rs`: which variable reference direct evaluation reports missing;
  - `vm.rs`: the stack machine; each step decodes one instruction and either
    carries it out (loads, stores, pops), refuses it (a negative variance or
    time step), or asks the caller for the arithmetic on clouds;
  - `laws.rs`, `stack.rs`, `spacing.rs`: properties across the modules,
    proved.
- `app/` is the command-line program `lorenz <file.lz>`, the arithmetic on
  clouds (floating point and random sampling), the Butterfly Profiler, the
  HTTP API and the WebAssembly entry point.
- `tests/` runs the library.

Numbers are IEEE-754 binary64 values; inside the library they are carried as
their bit patterns (`u64`) and never computed with.

The system state keeps its variables and covariances in vectors, under the
invariant that no name (or ordered pair of names) occurs twice, rather than
in `HashMap`s keyed by strings: Verus's specification of `HashMap` gives
usable facts for integer keys, and none that a proof could build on for
`String` keys.
