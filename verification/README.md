# isodapane_build

The fare logic behind isodapane.ch, a map of what a public transport ticket costs
from any station in the canton of Zürich and, by rail, in Switzerland. Written in
Verus: every function of the library states what it returns and is proved to.

## Layout

- `src/` is the library.
  - The Zürich tariff: `zoneset` (sets of fare zones and their weights), `graph`,
    `components`, `graph_json` and `shortcuts` (the station graph), `search` with
    `search_proof`, `frontier` and `search_laws` (the multi-label search), `fares`
    (the price table), `stations` and `pipeline` (from a timetable to a graph),
    `zones` and `wfs` (fare-zone geometry), `validate` (known fares and label
    growth).
  - The national tariff: `osdm` (published fares), `rail` and `routes` (the rail
    graph), `curve` (the monotone price curve), `calibrate` and `web` (the two price
    tiers), `unions` (regional fare unions); `national` puts them together.
  - Shared: `bits`, `heap`, `json`, `seqs`, `sorting`, `text`.
- `app/` is the command-line program: downloads, files, coordinates and anything
  else in floating point.
- `tests/` runs the library on concrete values.

Public proof functions named `law_…` state what holds across functions: that a leg
never costs more than the journey it is part of, that fares are symmetric, that a
label cap never undercharges and that a search which dropped no label is exact,
that a walk between stations costs no distance, that dropping shortcuts strands no
station, that loading a model undoes writing it, and so on.

## What is not proved

`json` takes the reading of JSON from `serde_json`, and says so where it does.
Prices, lengths and times are whole numbers in a unit the caller chooses;
coordinates are carried along without being looked at.
