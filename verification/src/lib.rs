//! Ordering and rendering of declared SQL entities.
//!
//! Declarations are collected into a registry, their positioning requests are
//! resolved into a dependency graph, the graph is put into one deterministic
//! order, and the ordered declarations are rendered as a single SQL document.
//!
//! Beside the graph stand a few smaller parts of an extension and of its
//! tooling: the state of an average, a list of animals, the head of a
//! variable-length value, and the plan of a session on the command line.
pub mod aggregate;
pub mod animals;
pub mod declared;
pub mod entity;
pub mod error;
pub mod graph;
pub mod positioning;
pub mod registry;
pub mod render;
pub mod run;
pub mod script;
pub mod text;
pub mod varlena;
