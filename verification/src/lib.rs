//! Bucketed compression-dictionary pipeline for account snapshots.
//!
//! Records, each an owner identifier and a payload, are routed to buckets by a
//! derived key; per-bucket payload samples are accumulated under configurable
//! caps, a compression dictionary is trained per bucket, the resulting catalog
//! is persisted in a verified binary format, and a benchmark harness measures
//! dictionary-aware against dictionary-less compression while checking that
//! every record round-trips exactly.

pub mod keys;
pub mod bench;
pub mod catalog;
pub mod codec;
pub mod samples;
pub mod trainer;

pub use keys::create_bit_mask;
pub use keys::PartialPubkey;
pub use keys::PartialPubkeyByBits;
pub use samples::Samples;
