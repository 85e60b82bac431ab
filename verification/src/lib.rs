//! The scan engine of a robot cell, verified.
//!
//! Sequences are stepped over a cell with a fixed scan period and baked into
//! a timeline; timelines are measured for branch coverage, lowered to a
//! controller program, and swept by a simulated lidar. Every quantity that
//! the engine orders, adds or compares (seconds, metres, radians) is a
//! fixed-point number: an integer count of 10^-12 of its unit.

pub mod accept;
pub mod aisle;
pub mod command;
pub mod coverage;
pub mod devices;
pub mod dispatch;
pub mod engine;
pub mod error;
pub mod export;
pub mod finish;
pub mod fire;
pub mod fixed;
pub mod flat;
pub mod gait;
pub mod held;
pub mod lanes;
pub mod laws;
pub mod lower;
pub mod motion;
pub mod mounted;
pub mod names;
pub mod program;
pub mod programs;
pub mod ride;
pub mod rigid;
pub mod robots;
pub mod rollout;
pub mod scan;
pub mod scene;
pub mod script;
pub mod sensors;
pub mod seq;
pub mod setup;
pub mod simulate;
pub mod stride;
pub mod supply;
pub mod text;
pub mod tick;
pub mod tiling;
pub mod timeline;
pub mod tracks;
pub mod unbroken;
pub mod vehicle;
pub mod views;
pub mod walk;
pub mod whole;
pub mod world;
pub mod zone;
