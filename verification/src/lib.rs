//! A context-tagged TLV object codec: tag assignment for the members of
//! product and sum types, transactional container encoding, and sequential
//! and unordered container decoding, together with the device metadata and
//! mDNS registration bookkeeping that sit beside it.

pub mod error;
pub mod tags;
pub mod args;
pub mod element;
pub mod writer;
pub mod encode;
pub mod decode;
pub mod laws;
pub mod metadata;
pub mod mdns;
