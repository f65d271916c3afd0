//! Upkeep of a markdown note vault: moving completed checklist items into an
//! "Archived" section, and normalizing punctuation in text.
//!
//! Documents are trees of `document::Node`; their mathematical value is a
//! `document::Tree`, over which the transforms are specified.

pub mod archive;
pub mod archive_laws;
pub mod document;
pub mod driver;
pub mod normalize;
