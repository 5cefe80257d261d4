//! Block matching for delta transfer: a two-level index of expected blocks,
//! a rolling checksum, a sliding window over candidate data, and the session
//! that turns matches into writes on the reconstructed file.

pub mod error;
pub mod rcksum;
