# engine

Kana-to-kanji conversion for a Japanese input method, verified with Verus.

## Layout

- `src/` is the verified library.
  - `dictionary`, `mime`, `language_model`: the `.mime` dictionary format, its
    reader, prefix lookup and the n-gram language model.
  - `scoring`, `lattice`, `engine`: the beam search over the lattice of
    dictionary words and unknown characters, and the candidate lists.
  - `theorems`: what every candidate list satisfies (length, cost order,
    distinct texts, segments that spell the reading).
  - `csv`, `lexicon`, `matrix_source`, `corpus`, `writer`: the dictionary
    compiler: lexicon rows, connection costs, corpus counts and the encoder.
  - `roundtrip`: what the encoder writes, the reader reads back.
  - `text`, `order`, `sort`, `counting`, `numbers`, `scan`: strings, byte order,
    sorting, run counting, integer parsing and line/field splitting.
- `app/` is the program around it: the terminal front end, the command-line
  candidate lister, the dictionary compiler's file handling and probability
  costs, and the neural re-ranker.
- `tests/` runs the library on small dictionaries built in memory.
