//! Locality-sensitive hashing of embedding vectors by random-hyperplane
//! projection: deterministic hash codes over {'0','1'}, bucketing of equal
//! codes with original order kept, and Hamming distance between codes.

pub mod bucket;
pub mod distance;
pub mod errors;
pub mod hashing;
pub mod text;
