# gpurify_erc

Electrical rule checks over an extracted layout, verified with Verus.

A deck of rules is filed into one table per kind of rule (`RuleSet::from_deck`, or
`RuleSet::from_deck_over` where the die is known), and
`RuleSet::run` runs every table over a layout: each configured row leaves exactly one
run row, saying that it ran, was skipped for want of design intent, or was refused.
Rules that need currents read a supply grid that `power` extracts from the layout and
solves; rules that need resistances probe a resistor network per net.

- `number`, `addition`, `rounding`: binary64 arithmetic on bit patterns, exact.
- `geom`, `ring`, `clearance`, `distance`, `parting`, `holding`, `enclosing`, `grid`: exact
  geometry: distances, which polygon holds a point, whether one region lies in another,
  nearest-segment search.
- `sorted`, `order`, `components`, `paths`: sorting, connected parts, shortest paths.
- `store`, `design`, `text`, `model`, `deck`, `intent`, `facts`, `report`: the data a run
  reads and writes.
- `filing`, `shape`, `fitting`, `ruleset`, `gating`, `repeat`: the deck's rows, filed and run,
  and what holds of every run.
- `rules`: one check per kind of rule, and what it promises.
- `power`: extraction of rails and nets, the preconditioned conjugate-gradient solve,
  elimination and inversion behind the probes; `conduction`, `joining` and `balance` state
  what holds of resistances and potentials in exact arithmetic.
- `evidence`: checks over an extracted netlist: ESD paths, substrate ties, rails, narrow
  metal, pins, point-to-point resistance.

`app/` evaluates the exponentials and powers two models need, and words a resistance, in
machine floating point.
