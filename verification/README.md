# mimic

A phonetic memoization layer for text-to-speech, in Verus. Generated speech is
taken apart into reusable units (phrases, words, morphemes, diphones, phonemes),
later requests are resolved against the cached units, and only the missing spans
go to a speech provider.

- `src/` is the verified library. Every function states what it returns or
  changes over mathematical models of texts, samples, token streams and the store.
  `laws.rs`, `coverage.rs`, `playback.rs` and `reuse.rs` state what holds of the
  cache as a whole.
- `tests/` runs the library on concrete inputs, with a transform codec and an
  offline provider in floating point.
- `app/` holds what surrounds the library: the command line, the HTTP service, the
  planning daemon, the graph database, files and sockets, and everything that
  computes in floating point.

Quantities that are fractions are doubles in the library, computed in integers:
`double.rs` models a double as a whole number of units of 2^-1074 and states every
operation as the exact result, rounded; `figures.rs` writes doubles, `numeral.rs`
reads them, and `big.rs` holds the whole numbers without a limit that reading
takes. Levels, seams, costs of the search, shares, prices, thresholds, pauses and
fade gains are such doubles. Times that a clock measures are in nanoseconds. The
curve of a fade comes from outside, for fades of any length.

What the library takes from outside on trust: white space, letters, digits and case
mapping as the standard library has them, lossy UTF-8 decoding, SHA-256, JSON
strings and lookups, one TOML lookup, and the clock. Each of them is declared, with its
contract, where it is used.
