//! Verified core of a duplicate-frame removal pipeline.
//!
//! A video is split into an ordered sequence of frames.  Each frame is
//! summarized by an opaque perceptual descriptor, and a dissimilarity score
//! (smaller means more similar) is computed between pairs of descriptors.
//! The engine decides which frames are redundant duplicates of an earlier
//! kept frame; the compactor renumbers the survivors into a gap-free
//! sequence.  Scores enter the library as non-negative integers: any
//! order-preserving encoding of the metric's output works, and the caller
//! supplies the same encoding for the threshold.
//!
//! Everything that touches the filesystem, the external transcoder and the
//! perceptual metric itself lives outside this crate; the decisions are made
//! here, under contracts.

pub mod compact;
pub mod engine;
