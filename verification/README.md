# shellframe

A framework for building shell environments, verified with Verus.

- `src/parser/` — the bash-like lexer and recursive-descent parser. `lexer.rs` and
  `mod.rs` hold both the executable code and its specification: `lex_tokens` and the
  `parse_*_at` functions describe, character by character and token by token, what an
  input means; `Lexer::tokenize` and `parse` are proved to compute exactly that.
  `ast.rs` holds the syntax tree and its mathematical model.
- `src/eval.rs` — evaluation of a syntax tree as a step machine. The embedding program's
  builtins, hook and redirection handler are run by the caller between steps (`dispatch`
  decides between builtin and hook); `next`
  specifies each step, and the `law_*` proofs state the shell's rules (`&&`, `||`, `|`,
  `;`, subshells, unknown commands, command substitution).
- `src/semantics.rs` — the meaning of an evaluation written directly over the syntax tree
  (`eval_expr`, `expand_parts`), for any code of the embedder, and the proof that the
  machine, driven step by step, hands out exactly that outcome and context.
- `src/context.rs` — working directory, environment (an `indexmap::IndexMap`, used through
  a few trusted wrappers and modelled as its entries in order), last exit code and the
  embedder's state.
- `src/output.rs`, `src/text.rs` — command outcomes; character and string helpers.
- `app/` — the `Shell` type that embedders use: it stores their closures, reads the host
  environment and drives the machine.
- `tests/` — lexer, parser, evaluation and context cases.
