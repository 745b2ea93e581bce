//! Verified core of the SonicBridge music-descriptor engine.
pub mod text;
pub mod renderer;
pub mod alignment;
pub mod pipeline;
pub mod paths;
pub mod batch;
pub mod config;
pub mod decoder;
pub mod musicology;
pub mod cli;
pub mod onset;
pub mod report;
