//! Verified core of a 2D physics sandbox: link scripts that tie body
//! properties to named variables, collision scripts with `$` readings,
//! collision layers and the attraction pairing between bodies.
pub mod bodies;
pub mod config;
pub mod links;
pub mod scripts;
pub mod text;

pub use config::ConfigPlugin;
pub use links::{Link, Links, Sides};
pub use scripts::Code;
