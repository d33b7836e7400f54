//! Text scrambling animations for the terminal: ANSI-aware line layout,
//! marker parsing and frame rendering, with their contracts.

pub mod text;
pub mod layout;
pub mod cli;
pub mod charset;
pub mod rng;
pub mod ansi;
pub mod animator;
pub mod integrations;
pub mod properties;
