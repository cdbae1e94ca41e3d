//! A local, append-only write-ahead log: checksummed record frames, segment
//! buffers and the region that assigns sequence numbers, recovers after an
//! unclean shutdown and enforces retention.
pub mod bytes;
pub mod record;
pub mod recovery;
pub mod region;
pub mod segment;
