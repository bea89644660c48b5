//! A declarative build orchestrator: recipes and their dependency graph
//! (`dag`, over the `graph` wrappers of petgraph), source expansion through glob
//! (`sources`), argument templating (`template`), and the decisions of the build
//! executor (`executor`). Creating directories and running tool processes is
//! left to the caller, which performs the executor's actions.

pub mod config;
pub mod dag;
pub mod error;
pub mod executor;
pub mod graph;
pub mod sort;
pub mod sources;
pub mod template;
pub mod text;
