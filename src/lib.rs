//! Per-cycle proof-of-stake state: roll counts, random seed bits and block
//! production statistics of one cycle, their order-independent aggregate
//! hashes, and a bounded binary wire format for them.
pub mod address;
pub mod bits;
pub mod codec;
pub mod cycle_info;
pub mod entries;
pub mod hash;
pub mod stats;
pub mod varint;
