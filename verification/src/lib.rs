//! Scoped CSS modules for Topcoat components: the build-time scanner that finds
//! `css!` invocations in Rust source, the naming and export rules that turn a CSS
//! module into checked Rust fields, and the protocol that the procedural macros
//! read back.

pub mod text;
pub mod exports;
pub mod compiler;
pub mod naming;
pub mod validate;
pub mod tokens;
pub mod scanner;
pub mod protocol;
pub mod sources;

pub use protocol::{Manifest, Module, MANIFEST_ENV, MANIFEST_VERSION, STYLESHEET_ENV};
pub use tokens::fingerprint;
pub use compiler::push_unique;
