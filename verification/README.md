# agari

Riichi Mahjong hand analysis, verified with Verus: hand notation, tile
counts, shanten (standard, seven pairs, thirteen orphans), tile acceptance
(ukeire), chi and kan calls, and permanent furiten.

## Layout

- `src/tile.rs` — tiles and their 34-slot index.
- `src/parse.rs` — `TileCounts`, hand notation (`123m406p11z`), tile
  counting and hand validation.
- `src/blocks.rs` — tile totals, and the greedy split of a count array into
  melds and two-tile blocks, suit by suit.
- `src/arrange.rs` — arrangements of a hand into melds, taatsu, a pair and
  single tiles, and the search that finds the least score of any of them:
  the standard-hand shanten.
- `src/shanten.rs` — shanten, ukeire, chi and kan.
- `src/furiten.rs` — permanent furiten.
- `src/complete.rs` — melds and winning shapes, and the proof that a hand of
  14 − 3k tiles (k melds called) scores −1 exactly when it has a winning
  shape.
- `src/text.rs` — message text (decimal numbers, tile names).
- `app/` — Python bindings (`pyo3`) and serializable copies of the result
  types (`serde`). The bindings offer no `hand_has_yaku`: that needs yaku
  detection and scoring, which this library does not contain.
- `tests/` — behaviour on concrete hands.

Every function in `src/` carries a contract stated over spec functions in
the same module; the proof functions there state the library's laws (index
round trip, shanten range, least-of-three-shapes, -1 exactly for winning
shapes, ukeire with and without visible tiles, complete hands accept
nothing, chi pairs form runs, tile conservation of the meld split, parse
counts, standard shanten as the least score over all arrangements).
