//! Review search backend: the verified core of a review store that keeps
//! review metadata in an append-only JSON-lines file, indexes records by
//! byte offsets, and drives insertion and search requests.

pub mod codec;
pub mod feedback;
pub mod index;
pub mod lines;
pub mod reviews;
pub mod store;
pub mod text;
