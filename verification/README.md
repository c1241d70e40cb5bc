# entropy_code

Entropy coding fundamentals with machine-checked contracts: symbol
frequency counting, Shannon and length-limited optimal code lengths, Kraft
inequality checks, canonical prefix codes and a binary arithmetic coder.

- `src/` is the library, verified with Verus:
  - `probability`: frequency distributions and pair counts;
  - `kraft`: exact Kraft sums, equal-length and canonical codes;
  - `optimal`: Shannon code lengths and minimum-cost length-limited codes,
    with `length_limit` holding the search and its optimality proof;
  - `arithmetic`: the encoder and decoder, with `arithmetic_laws` proving
    that decoding recovers every encoded symbol;
  - `bits`: binary strings and their values.
- `app/` holds the floating-point quantities (entropies, probabilities,
  real-valued Kraft sums and code statistics), built on the library.
- `tests/` runs the library on concrete inputs.
