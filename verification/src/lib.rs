//! Witness aggregation for a bridge consensus gadget.
//!
//! The heart of the crate is [`witness_record::WitnessRecord`]: it collects
//! per-validator attestations about externally observed events, suppresses
//! duplicate and equivocating submissions, buckets signatures per claimed
//! event digest, evaluates threshold support, and extracts a dense,
//! position-aligned proof array.

pub mod types;
pub mod witness_record;
