//! Declarative, generation-based configuration management: numbered
//! generations of desired items per package-manager backend, reconciled
//! against the generation that was last applied.

pub mod text;
pub mod history;
pub mod generation;
pub mod store;
pub mod manager;
pub mod reconcile;
pub mod lock;
pub mod resolver;
pub mod config;
pub mod graph;
