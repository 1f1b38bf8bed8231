//! Terminal session launcher core: discovers source-controlled project
//! directories under configured roots, ranks them by a usage-based score,
//! resolves a query to a project, and reconciles the choice with a
//! multiplexer's live session list.

pub mod config;
pub mod discovery;
pub mod frecency;
pub mod jsonstore;
pub mod paths;
pub mod picker;
pub mod zellij;

pub use config::Config;
pub use config::Root;
