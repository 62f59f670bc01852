//! Per-feed listener tracking with spike detection.
//!
//! Listener levels are held in fixed point: a level of `SCALE` stands for one
//! listener. Fractions (spike thresholds, adjustment rates) are held in parts
//! per million.
pub mod average;
pub mod codec;
pub mod config;
pub mod cycle;
pub mod feeds;
pub mod listeners;
pub mod registry;
