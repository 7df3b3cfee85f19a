# neat-ai-forests

An optimiser that improves a trained network by grafting small decision trees
onto its outputs. It searches binned residuals for stumps, trees and oblique
splits, turns the best into patches, grafts each patch onto a copy of the
incumbent, and keeps a candidate only when the external scorer says, on the
whole corpus, that it beats the incumbent.

- `src/` is the library. Every function of it is verified: data types, binning,
  search decisions, grafting plans, screening and promotion, the journal and its
  report, the shared learnings, creature tags.
- `app/` is the program around it: arguments, files, the scorer process, the
  graphics adapter, and floating-point arithmetic. Numbers cross into the library
  as bit patterns (`floats::Single`, `floats::Double`), which it compares and
  orders but does not compute with.
- `tests/` runs the library on concrete values.

Outside calls that only compute are made by the library behind small trusted
functions: SHA-256 (`digest`), random draws (`random`), JSON (`json`) and
`String::push` (`text`).
