//! Core logic of the yei command-line tool: configuration, module paths,
//! import rewriting, dependency resolution and stylesheet editing.

pub mod text;
pub mod registry;
pub mod add;
pub mod resolve;
pub mod config;
pub mod css;
