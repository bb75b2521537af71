//! Trusted-node relay core for quantum-distributed symmetric keys.
//!
//! A relay daemon sits beside one or more key-management entities (KMEs) and
//! stitches per-hop quantum keys together by XOR chaining along a path through
//! a hypercube overlay, so two applications that share no direct quantum link
//! still end up with the same key material.

pub mod config;
pub mod errors;
pub mod etsi;
pub mod keys;
pub mod planner;
pub mod relay;
pub mod store;
pub mod urls;
pub mod util;
