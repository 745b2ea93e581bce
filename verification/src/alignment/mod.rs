//! Temporal alignment of two versions of a piece.
pub mod dtw;
