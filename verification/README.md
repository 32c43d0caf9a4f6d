# belief_revision

Belief revision in the style of Alchourrón, Gärdenfors and Makinson (AGM),
verified with Verus.

- `src/text.rs` — trimming, splitting at `=>`, equality and negation (`¬p`) of
  propositions, each against a specification over `Seq<char>`.
- `src/propset.rs` — `PropositionSet`, a finite set of strings kept in the
  order of `String` (bytewise on UTF-8), with its order laws.
- `src/belief_base.rs` — `BeliefBase` and the closure check for beliefs of the
  form `X=>Y`.
- `src/entrenchment.rs` — `EntrenchmentOrder`: propositions ranked in levels.
- `src/contraction.rs`, `src/revision.rs`, `src/recovery.rs` — contraction,
  expansion, revision, the recovery check and the check of the basic postulates.
- `src/laws.rs` — the AGM postulates and entrenchment laws, proved over the
  specification functions that the operations' contracts use.
