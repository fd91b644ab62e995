# ed255190

Hint-checked double scalar multiplication on ed25519, verified with Verus.

A prover computes every intermediate point of `s1 * G + s2 * G2` and hands
the points out as hints; an evaluator accepts each hint only when it satisfies
the twisted Edwards addition (or doubling) law modulo `2^255 - 19`, so that
the evaluator itself never divides.

Layout of `src/`:

- `limbs`: eight-limb little-endian integers, carrying additions.
- `field`: arithmetic modulo `q = 2^255 - 19` (`mul_mod` through num-bigint).
- `structs`: points, the addition, doubling and decompression checks, and
  their laws.
- `hinter`: where hints come from (`ComputeHintStreamer`, a slice-backed
  store, a refillable buffer).
- `run`: what a run of checked steps computes.
- `group`: the points of the curve as a group, scalar multiples, and the
  classical facts that the scalar-multiplication laws take as hypotheses
  (`q_is_prime`, `addition_complete`, `addition_closed`,
  `addition_associative`, together `curve_group_facts()`); commutativity of
  the addition law is proved.
- `scalar_mul`: from accepted runs to points: a run that is accepted ends
  at `s1 * B + s2 * G2` when the tables hold the multiples of `B` and `G2`.
- `evaluator`, `dual_table_evaluator`: the two evaluators.
- `eddsa`, `host_hinter`, `table_generation`: the prover's side, computed
  with arkworks.

`app/` holds serde copies of the message types, printing, and the pieces
that exist only inside the RISC Zero zkVM.
