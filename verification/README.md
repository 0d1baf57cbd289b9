# combinatorial

Iterators over the combinations of a set of elements, with and without replacement,
verified with Verus.

- `src/sorted_set.rs`: `iterable_to_sorted_set`, which sorts and deduplicates the input
  through a `BTreeSet`, and facts about picking sorted elements by position.
- `src/lex.rs`: combinations and multicombinations of indices, lexicographic order, and the
  lemmas behind the step from one combination to the next.
- `src/combinations.rs`, `src/combinations_with_replacement.rs`: the two generators. `next`
  returns the current combination and moves the positions to the lexicographically next one,
  to the first one of the next size (`all`), or finishes.
- `src/laws.rs`: stepping from combination to combination is unique, moves strictly forward
  and reaches every later combination of the same size.
- `src/counting.rs`: the sets of combinations and multicombinations, counted as binomial
  coefficients and multiset coefficients.
- `src/runs.rs`: what a whole run of `next` calls does, from `of_size` or `all`: every
  combination once, in order, the right number of them, then nothing for ever.
- `app/lib.rs`: `Iterator` adapters that accept any iterable.
