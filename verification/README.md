# noid_recursive

The constraint-system half of a recursive history proof, verified with Verus.

The library records rows over a binary field and assembles the committed columns
that the rows and the walk protocols speak of. Hashes, permutations, transcripts
and provers belong to the host: the library takes what they return as plain
values and states what it does for every value of it.

- `field`, `basis`, `circuit`, `bits`, `trace`, `mle_trace`, `round_trace`,
  `ext_trace`, `fixed_shape`: the field, the builder and the gadgets.
- `integer_program`, `development_allocation`, `scheduled_allocation`,
  `paged_spend`: the rules of a block.
- `region_layout`, `columns`, `patterns`, `walk_planes`, `meta_*`, `tx_root`,
  `selected_region`, `selected_allocation`: the selected region of a block.
- `duplex`, `duplex_union`, `duplex_regions`: channels that share a walk.
- `relation_terms`, `union_terms`, `merkle_terms`, `merkle_shapes`,
  `spine_union`, `walk_claims`, `walk_discharge`, `paired_pins`, `path_roots`: the
  relations of the walks and the openings they leave.
- `parent_geometry`, `parent_link`, `recording`, `parent_close`: the parent
  region of a history step.
- `retirement`, `request_binding`, `le_bytes`, `sidecar_purpose`: retiring a legacy
  terminal, its encoding, and the identifiers of the sidecars.

Every gadget says three things of the rows it records: what every assignment that
satisfies them satisfies, exactly when the recorded witness satisfies them, and
which rows they are. The rows are a function of the forms that the gadget is
given (`*_step`), never of a recorded value; `fixed_shape` draws the laws.

A stream of pages is bound page by page (`PagedSpendStream`), so that the host's
hash rows of a page stand right behind its checks.

`app/` runs the loops around the library against a host; `tests/` runs the
library on concrete values.
