# solverforge_lists

Verified building blocks for list-variable planning: move-selector configuration, list
move selection and application, and an incrementally maintained precedence/makespan score.

Layout of `src/`:

- `config`, `solver_config`: move-selector and solver configuration values with their defaults.
- `solution`, `segment`: the list solution model and segment relocation on sequences.
- `family_block_move`, `family_block_selector`, `list_union`: family-block relocation moves,
  the selector that offers them, and the union of list moves with do/undo.
- `slot`, `builder`: list variable slots (with the attachment of a model's declared hooks)
  and the flattening of selector configuration into
  leaf selectors.
- `precedence`, `precedence_constraint`: the precedence graph state (arc counts, Kahn
  schedule, reachability, cycle marks, incremental propagation) and the makespan constraint
  that scores a solution from scratch or incrementally.
- `score`: the hard/soft score and saturating arithmetic.

`app/` holds what stays outside the verified library: serde/TOML conversions of the
configuration types and distance-meter adapters over floating point.
