# mjagari

Mahjong tiles, tile combinations, and the search for the winning-hand
patterns ("agari patterns") into which a hand of up to 14 tiles can be split,
written in Verus with its behaviour stated in contracts and proved.

Layout:

- `src/mjcore/mjtile.rs`: tiles (`MJTile`), their categories, text and parsing.
- `src/mjcore/mjcomb.rs`: combinations (`MJComb`) and their red marks, held in
  a one-byte `bitvec` bit array.
- `src/agari/digits.rs`: base-4 and base-1024 digits, the model of the packed
  codes.
- `src/agari/pattern.rs`: `AgariPattern` (up to eight 2-bit combination slots)
  and `AgariPatternSeq` (up to six 10-bit pattern slots), their iterators, and
  the text of a list of patterns.
- `src/agari/pattern_search.rs`: the dynamic-programming search
  (`search_pattern`, `search_pattern_sorted`), stated exactly over the spec
  table `dp_row`.
- `src/agari/soundness.rs`: every returned pattern splits the hand.
- `src/agari/completeness.rs`: the search returns exactly the splits of the
  hand, each listing its combinations in the order they are completed; so
  the result is empty exactly when no split exists.

The laws about what the search returns are proved for hands on which no
cell of the search table gathers more than six patterns (the capacity of a
64-bit pattern sequence), stated as the premise `table_fits`. No hand of at
most 14 tiles is known to break it, but it is not proved.
- `tests/`: tests on concrete hands.
- `app/main.rs`: a small program that prints a few tiles, combinations and
  search results.
