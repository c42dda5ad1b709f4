# Trace affinity

Computes the affinity of pairs of elements in an access trace: for a window
size `w`, the number of windows of `w` consecutive accesses that hold both
elements of a pair, over the number of windows that hold one of them.

The counts come from one pass over the trace that records, in log-linear
histograms, the reuse times of every element and the switch,
inter-switch and joint-switch times of every pair.

Layout:

- `src/` is the verified library (Verus):
  - `histogram.rs`: the log-linear histogram and its bucket records;
  - `pair.rs`: unordered pairs and their packed map keys;
  - `scan.rs`: the histogram pass, specified step by step;
  - `pass_laws.rs`, `windows.rs`: what the pass and the counts mean; on the
    pass's histograms the single and joint counts are proved to succeed and
    to count windows for window sizes below 512, and for larger ones
    wherever no histogram bucket holds samples on both sides of the window
    size (for the joint count, on traces with `(n + 2)^2` within `u64`);
  - `frequency.rs`: single and joint frequencies from the histograms;
  - `affinity.rs`, `node_order.rs`: affinities, listed highest first;
  - `trace.rs`, `words.rs`, `text.rs`: reading traces of numbers, letters
    and words;
  - `prompt.rs`: the decisions of the interactive mode.
- `tests/`: tests of the library.
- `app/main.rs`: the command-line program (`u`, `f`, `c`, `w`, `h` modes),
  which reads files and input and prints or writes the results.
