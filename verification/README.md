# institution

Executable Goguen-style institutions, verified with Verus.

An institution connects signatures, signature morphisms, sentences, models
and satisfaction. The library states each operation of an institution by a
spec function, observes the category, functor and satisfaction laws on
supplied examples, and joins two institutions along a bridge.

It also models the data and the laws of two concrete institutions. For
exact balance laws over finite traces it holds signatures, axis renamings,
sentence translation, model reduct and the satisfaction condition; whether a
trace satisfies a law is decided by a checker that the caller supplies,
and `app/` completes the institution with it. For stock-flow carriers it
holds the carriers, their structural renamings, the translation of graded
balance laws and the pull-back of transition records; the other stock-flow
sentences and the stock-flow models are not part of it.

Layout:

- `src/lib.rs`: the `Institution` trait.
- `src/laws.rs`: satisfaction squares, non-vacuity evidence and the law
  observations, with the predicates they report on.
- `src/comorphism.rs`, `src/join.rs`: comorphisms, joins of two institutions
  along a bridge, and the embeddings of each part, with their laws.
- `src/symbol_map.rs`: finite maps keyed by integer symbols, kept sorted.
- `src/conservation.rs`, `src/conservation_laws.rs`: signatures, axis
  renamings, traces and graded balance laws, and the institution's laws.
- `src/carrier.rs`, `src/stock_flow.rs`: stock-flow carriers, structural
  renamings between them, and their laws.
- `app/`: displayable errors, and the conservation institution completed by
  a caller-supplied trace checker.
- `tests/`: executable tests.
