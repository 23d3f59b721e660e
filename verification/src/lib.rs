//! A multi-backend storage core: opaque binary envelopes ("containers") are
//! persisted across an ordered list of pluggable backends, one of which is
//! authoritative for reads, while writes and deletes may be replicated
//! ("reflected") to the rest in a fixed order.

pub mod container;
pub mod memory;
pub mod note;
pub mod storage;
