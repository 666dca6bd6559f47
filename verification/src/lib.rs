//! Normalization and equivalence checking for a blockchain node's
//! per-block state-change traces: a raw, heterogeneous event log is
//! classified, resolved to one write per key, decoded, filtered by the
//! append-key exclusion policy and serialized under a fixed
//! deterministic order, so that a live trace and a stored reference
//! record can be compared byte for byte.
pub mod append;
pub mod compare;
pub mod format;
pub mod json;
pub mod laws;
pub mod pipeline;
pub mod decode;
pub mod entry;
pub mod event;
pub mod resolve;
pub mod text;
