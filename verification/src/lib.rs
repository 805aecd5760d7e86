//! A small synchronous reactive runtime.
//!
//! Processes are built from user actions, `pause`, sequences, choices, loops,
//! parallel compositions and signal operations.  A process is compiled into a
//! graph of nodes and run instant by instant by a [`engine::Runtime`].
pub mod value;
pub mod process;
pub mod graph;
pub mod emission;
pub mod model;
pub mod engine;
pub mod laws;
pub mod dot;
pub mod life;
pub mod meaning;
