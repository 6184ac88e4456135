//! Core of a version-bump tool: a semantic-version value type with a
//! verified parser and formatter, and a configuration store of tracked
//! modules and files that can be rendered to and read back from its
//! textual configuration format.

pub mod chars;
pub mod store;
pub mod text;
pub mod version;
