//! A faceted trie index over a catalogue of projects: every project carries an
//! optional value per named topic, and the index answers "which projects match
//! this partial assignment" and "which values can this topic still take".
pub mod error;
pub mod facets;
pub mod laws;
pub mod menu;
pub mod node;
pub mod parameter;
pub mod project;
pub mod tree;
