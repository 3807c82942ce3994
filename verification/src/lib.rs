//! C2PA manifest discovery over HTTP: the `c2pa-manifest` `Link` header
//! (RFC 8288).
//!
//! - [`link`] parses and serialises the header value.
//! - [`layer`] attaches the header to an `http::HeaderMap` and reads it back,
//!   and renders the value that a Tower layer appends to every response.
//! - [`error`] holds the error type and the C2PA status codes it maps to.
//! - [`laws`] states and proves what holds across these functions.
//!
//! Retrieving the manifest is left to the caller: this crate performs no
//! network I/O. [`Error::Inaccessible`] exists so a caller that does fetch can
//! report `manifest.inaccessible` through the same error type.
use vstd::prelude::*;

pub mod error;
pub mod laws;
pub mod layer;
pub mod link;
pub mod text;

pub use error::Error;
pub use layer::{append_to, extract_from, ManifestLinkLayer};
pub use link::{ManifestLink, REL};

verus! {

} // verus!
