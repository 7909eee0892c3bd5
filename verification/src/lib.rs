//! Dependency resolution for Ansible Galaxy collections.

pub mod cache;
pub mod closure;
pub mod failure;
pub mod laws;
pub mod lexical;
pub mod metadata;
pub mod package;
pub mod resolver;
pub mod result_laws;
pub mod semantic;
pub mod text;
pub mod version;
pub mod version_laws;
pub mod walk_laws;
