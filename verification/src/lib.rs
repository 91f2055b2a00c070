//! An iterative resolver for the wire protocol of the domain name system:
//! a verified message codec — including the name-compression pointer
//! mechanism, safe against crafted buffers — and the engine that walks the
//! delegation hierarchy from the root, following referrals until an address
//! is found.  The transport is the caller's: the library encodes queries,
//! decodes responses and decides each step.

pub mod codec;
pub mod engine;
pub mod name;
pub mod types;
