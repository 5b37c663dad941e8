# celandine

Exact counts behind entropy measures of finite byte sequences, with their
contracts proved by Verus.

- `src/` is the verified library: byte histograms and empirical byte
  distributions (`distribution`), overlapping byte n-grams (`transforms`) and
  their sorted count tables (`distribution`), and the integer groundwork of
  the entropy measures (`entropy`: parameter errors and the largest count).
  Public proof functions named `lemma_*` state the library's laws: counting
  ignores order, unigram counts equal byte counts, reversal and one-to-one
  relabeling keep block counts, and a count table is determined by its counts.
- `app/` holds what works in floating point: probabilities, Shannon, Hartley,
  Rényi, collision, min-entropy and Tsallis entropy, built on the exact counts,
  and the fuzzing oracles.
- `tests/` exercises the library on fixed and generated inputs.
