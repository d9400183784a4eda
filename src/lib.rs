//! K-sortable unique identifiers: a 32-bit timestamp in seconds since a custom
//! epoch and a 128-bit payload, written as 27 base-62 symbols whose text order
//! is the identifiers' order.

pub mod codec;
pub mod ksuid;
pub mod laws;
pub mod radix;
