# kid3

Decision trees grown by the ID3 algorithm from a CSV table of examples (one
example per line, the target attribute in the last column), with the attribute
to split on chosen at random, by information gain, or by gain ratio.

- `src/` is the verified library (Verus): tables of string cells and their
  subsets, distinct values and their counts, the tree and its classification of
  an example, ID3 itself, reading CSV, and the holdout and k-fold divisions of
  the examples. `id3::lemma_id3_fits_examples` proves that a grown tree
  classifies every example it was grown from.
- `app/` is the command line around it; the entropy and gain scores are
  floating point and are computed there.
- `tests/` runs the library on concrete tables.
