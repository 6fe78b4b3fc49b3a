# quantify

Quantified pattern matching over slices, verified with Verus.

- `src/quantifier.rs`: the `Quantifier` type, its text form (`to_string`) and
  its parser (`from_str`, `From<&str>`, `From<String>`), with the grammar as a
  spec function and the print/parse round trip proved.
- `src/quantify.rs`: the `Quantify` trait, which matches patterns (slices of
  items) against a collection under a quantifier: single slices (`try_match`),
  every suffix (`matches_all`, `matches_any`, `matches_any_not`,
  `matches_none`), every slice (`matches_pattern`, `matches_pattern_not`,
  `first_match`, `last_match`, `is_match`).
- `src/quantify_vec.rs`: `Quantify` for `Vec<T>`.
- `src/pattern.rs`: pattern trees (terminals and groups shared through `Rc`),
  their matcher, and the iterators that walk their terminals.

Every function's contract is stated over spec functions; `tests/` runs them on
concrete values.
