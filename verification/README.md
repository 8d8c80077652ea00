# bash_condexp

Parses and evaluates bash conditional expressions — the grammar accepted by
`[[ ... ]]` — with the lexer, parser, evaluator, shell arithmetic and pattern
matching verified by Verus.

- `src/`: the verified library. The grammar is stated as spec functions over
  token and word values (`lex::lex_spec`, `parse::parse_spec`), the meaning of
  an expression as `semantics::expr_outcome` (for a file system that follows
  its model) and `semantics::expr_outcome_obs` (for any file system, up to
  what it answers at each file test), and each executable function is proved
  to follow them. Hosts that keep no model of their own still get a contract:
  the outcome is `semantics::tree_outcome` of possible primary outcomes
  (`semantics::possible_primary`), an expression that asks the host nothing
  (`semantics::host_free`) means exactly `expr_outcome`, a refused arithmetic
  assignment ends evaluation with `ArithmeticAssignmentUnsupported`
  (`arith::settles`, over the evaluator's record of what `set_var` answered),
  and `=~` is the only primary that writes `BASH_REMATCH` back. A caller's environment after an `Evaluator` is done is the
  evaluator's final one, so chained evaluations compose. Laws of the library (optional outer brackets,
  short-circuiting, quoted patterns matching only themselves, read-only hosts
  never being written, ...) are public proof functions beside the code they
  speak of.
- `tests/`: tests run against the compiled library.
- `app/`: the host side — a `FileSystem` over `std::fs` and `libc`, capture
  of the process environment, error types that display themselves, and a
  small command-line driver.

The regular-expression engine is the `regex` crate, reached through a few
trusted wrappers whose contracts name what the engine computes.
