//! A library for fetching structured documents addressed by URL.
//!
//! A raw URL is canonicalized into a [`url_helpers::CanonicalUrl`] that
//! separates resource identity from fragment addressing; decoded documents
//! are kept in a cache keyed by resource identity; a JSON-Pointer-like
//! fragment selects a sub-value of a cached document.

pub mod cache;
pub mod document;
pub mod fragment;
pub mod loader;
pub mod text;
pub mod url_helpers;

pub use crate::document::{Document, SharedDocument, ToOwnedJsonType};
pub use crate::loader::Loader;
pub use crate::loader::error::LoaderError;
pub use crate::url_helpers::UrlError;
