# compromise

A verified library in Verus around one idea: a public declaration (a
function, a struct, an impl) is backed by an implementation that lives in a
separate module, `zz_slop`, and the two are connected by conversion traits.

- `src/parser.rs`, `src/eval.rs`: the public declarations of a small
  expression language (numbers, variables, lambdas, calls, checked
  arithmetic) — its syntax tree, `parse`, and the line-oriented evaluator
  `Eval`.
- `src/zz_slop/`: their implementations — the tokenizer and the
  recursive-descent parser, the evaluator with closures, and the text
  helpers they share. Each function's contract states its result exactly,
  over a mathematical model of the language.
- `src/slop.rs`: `FromSlop` and `IntoSlop`, and their lifting through
  `Option`, `Result`, `Vec`, `Box` and arrays.
- `src/slop_macro/`: what the `slop` attribute decides — reading the
  annotated item from its source text with `syn` (`reader.rs`), the checks
  on a signature, the backing module of a source file, the delegating or
  panicking body that a declaration gets — over the library's own model of
  a declaration.
- `app/main.rs`: an interactive prompt over the evaluator.
- `tests/`: the scenarios, on concrete values.
