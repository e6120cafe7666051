//! Verified core of a face indexer: the rules, layouts and decisions around two neural networks
//! that find faces in photos and turn each face into an embedding.
//!
//! Numbers that only the networks and their arithmetic understand pass through as [`single::Single`]
//! bit patterns; what is decided from them is decided here.
pub mod align;
pub mod blur;
pub mod detection;
pub mod embedding;
pub mod engine;
pub mod face;
pub mod formats;
pub mod history;
pub mod indexing;
pub mod picture;
pub mod progress;
pub mod quality;
pub mod select;
pub mod single;
pub mod suppression;
pub mod tensor;

