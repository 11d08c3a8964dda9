//! `complex`: a hierarchical issue tracker for agents.
//!
//! The library holds the issue graph, the rules that move nodes through
//! their states, and the queries over it, each verified against its
//! contract. The few calls it makes into chrono, rand, serde_json and std
//! (the clock, random draws, JSON values, string pushes) stand behind
//! small trusted wrappers whose contracts say what those crates document.
pub mod clock;
pub mod json;
pub mod text;
pub mod model;
pub mod id;
pub mod ops;
pub mod laws;
pub mod rules;
pub mod store;
pub mod db;
pub mod history;
pub mod tree;
