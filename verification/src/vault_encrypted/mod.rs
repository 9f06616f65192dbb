//! A vault whose notes are sealed objects with random names.

pub mod manifest;
pub mod manifest_laws;
pub mod notes;
pub mod store;
pub mod trash;
