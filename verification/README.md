# promql_streaming

Streaming evaluation of `agg(range_func(selector))` over hash-ordered metrics
files. The hash space is split into bands that are folded side by side. A band
merges its hash-ordered file chains one series at a time; a series is folded
into the accumulator of its group and dropped.

- `src/` is the verified library: which columns a query groups by and scans
  (`columns`), whether the plans of the bands can stream in order (`plan`,
  `band_plan`), the bands (`bands`), the read position in a chain (`cursor`),
  group keys and tables (`group_key`, `groups`), the fold of a band (`fold`), and
  the result (`merge`, `outcome`). `series` says what the series of some chains
  are. `series_laws`, `band_laws`, `layout_laws`, `shift_laws`, `merge_laws` and
  `result_laws` state what holds of them, each law with its conditions:
  - Each row is folded once, and each series of hash-ordered chains whole.
  - A run is a family of bands (`is_run`): each has hash-ordered chains of its
    own, whose rows lie in its range of hashes. Merging the bands gives one group
    for each signature, with the labels of its first series.
  - Where the hasher is a function, and the rows of a series have distinct times
    and the same labels, two runs over the same rows have the same groups and
    labels, however many bands there are and however the rows are laid out.
  - Their results are the same where, in addition, folding, merging and draining
    are functions and there are as many bands in both. With other numbers of
    bands they are the same where folding and draining are functions, and merging
    two accumulators comes to the same as folding on in one.
- `app/` runs the fold on a DataFusion session. It reads the streams, converts
  batches and plans, and performs what the library asks for.
- `tests/` runs the library on concrete values.

The fold does not read its input. `BandFold::step` says which chain it needs a
batch of, and `BandFold::next_batch` takes that batch. The accumulators and the
hasher of group signatures are handed in as functions.
