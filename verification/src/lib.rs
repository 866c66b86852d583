//! Orbital element records for low-Earth-orbit satellites: an exact
//! fixed-width codec over fixed-point values, the rules that decide which
//! gaps between records are propagated and where an arc is sampled, and a
//! size-bounded writer that cuts the output into shards.
//!
//! Every numeric field is held as an integer count of the smallest step its
//! column can express, so encoding and decoding are exact and every public
//! function carries a proved contract.

pub mod codec;
pub mod datetime;
pub mod gaps;
pub mod knot;
pub mod sampler;
pub mod scientific;
pub mod store;
pub mod text;
pub mod timeline;
pub mod writer;
