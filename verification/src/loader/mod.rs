//! The HTTP module loader.

pub mod canonical;
pub mod entries;
pub mod fetch;
pub mod import_map;
pub mod registry;
pub mod security;
pub mod vocabulary;
