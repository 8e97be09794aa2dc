//! Recording index of a multi-camera video recorder: per-camera session
//! ranges, per-day frame archives and the camera catalog records.

pub mod catalog;
pub mod documents;
pub mod error;
pub mod frames;
pub mod range;
pub mod recorder;
pub mod recording;
