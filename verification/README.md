# typecheck

A type checker for a polymorphic lambda calculus (System F in the style of
Curry), built around an LCF-style kernel: the only way to obtain a `Proof` of
a typing judgement is through the kernel's inference rules.

- `src/lang.rs`: terms and types, their models, substitution.
- `src/kernel.rs`: typing judgements, the inference rules as spec functions,
  derivation trees, and the exec rules. `Proof` has a type invariant: its
  judgement is derivable.
- `src/ast.rs`: evidence (derivations) that can be checked later.
- `src/derivations.rs`: checking evidence with the kernel, inferring the
  structural steps (weakening, exchange, contraction).
- `src/parser.rs`: a parser from bytes to evidence. It records errors in a
  list rather than stopping at the first, but it is no recovering parser:
  `parse` accepts only inputs on which every error it records has location
  0, and `try_parse` returns `None` on the others.
- `src/printer.rs`: the text of terms and types as the parser reads them,
  and the law that parsing the text of a term gives the term back.
- `app/main.rs`: a small program that parses and checks one term.
