# cat_sim

The rules of a colony simulation, written in Verus and proved against their
contracts: the intent planner and its bounded collections, player directives,
physical storage, quality lots, prosthetics, officer expertise and requests,
production, and research (the research manifest and its graph checks, the
progression catalog, ledgers and capability gates, the two-lane research
authority, and the research purchase lanes).

## Layout

- `src/` — the verified library. Each module states its data as spec views and
  each public function's result in `ensures`; laws that relate several calls
  are public proof functions or clauses of the calls they concern.
- `tests/` — executable tests of the library on concrete values.
- `app/` — what the library leaves to the host: seeded terrain noise (floating
  point) and serde wire forms of library types, among them the persisted
  research currency ledgers, physical bulk lots and the research manifest's
  studies (read from JSON and handed to the library, which validates them).

## What the library does not hold

Some parts of the colony rules rest on modules that are not part of this
crate (anatomy, beliefs, favor, the content manifest, the leader planner,
the random-number streams, station recipes and the upgrade tree). Where a rule
needs such a module's answer, the library takes that answer as an argument
(for example whether an officer owns a source domain, or what the content
manifest reports of itself when the progression catalog is built). The
following stay out:

- the Favor ledger itself: a Favor purchase is planned (`plan_purchase`,
  `select_automatic_purchase`), debited by the caller against its ledger,
  and recorded (`record_purchase`);
- the expansion of building families into research catalog nodes, which reads
  the station-recipe and upgrade-tree modules and computes costs in floating
  point: `build_manifest` takes the expanded nodes with their costs already
  rounded up to whole units, and the capability gates take the content
  manifest's answers (a content class, the capabilities a recipe or an
  operation requires) as arguments;
- the manifest compiled into the program, whose data files are not part of
  this crate;
- the planner dice rolls, which draw from the random-number streams
  (appointment selection takes each candidate's draw as an argument);
- workshop processing, recipes and terrain noise, which compute in floating
  point.

Report capabilities carry their report level and flow precision; their error
margins come from the beliefs module and are not held.
