//! Adaptive element relocation: CSS selection over a parsed HTML document,
//! element fingerprints, and a difflib-compatible similarity engine that
//! finds a saved element again after the page around it has changed.
pub mod attributes;
pub mod difflib;
pub mod document;
pub mod dom;
pub mod fingerprint;
pub mod text;

pub use attributes::AttributeMap;
pub use difflib::{str_ratio, Ratio};
pub use document::{best_group, AdaptiveDocument, AdaptiveElement, Error};
pub use fingerprint::{similarity_checks, Check, ElementFingerprint};
