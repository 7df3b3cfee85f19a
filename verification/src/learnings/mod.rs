//! Fleet-shared cache of what has already been tried.
//!
//! A patch names feature indices, thresholds and leaf corrections, never a
//! neuron uuid, so it can be grafted onto a different creature on a different
//! host. What it is tied to is the corpus it was measured against. Two things
//! are worth caching: what worked, and what failed. Only full-corpus verdicts
//! are cached: what a graft refused or a sampled screen dropped is not.
//!
//! Records live in `<root>/corpus-<identity>/<host>.jsonl`, one file per host.

pub mod model;
pub mod prune;
pub mod replay;
pub mod store;
