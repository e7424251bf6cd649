//! Epoch-based coordination protocols.
//!
//! This library holds the verified core of two small distributed protocols:
//! a log-free two-phase commit (`two_pc`) driven by a coordinator over a
//! cluster of participants, and a mutual-exclusion lock service (`lock`)
//! that arbitrates acquire/release requests against a per-key lock table,
//! one epoch of requests at a time.
//!
//! Both protocols tolerate an at-least-once, unordered transport by pushing
//! determinism onto message content: duplicate deliveries are absorbed by a
//! shared first-wins deduplication gate (`dedup`), and every per-epoch
//! computation reads only the snapshot left by the previous epoch. Transport,
//! membership, batching and wire encoding are the surrounding runtime's
//! concern; the functions here are total over the batches they are handed.

pub mod dedup;
pub mod lock;
pub mod two_pc;
