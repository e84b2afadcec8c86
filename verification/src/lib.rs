//! Mesh entities of a flat, index-linked scene-description document.
//!
//! A document stores one flat collection per entity kind; entities refer to
//! one another by strongly typed integer indices rather than by pointers.
//! This crate defines the mesh node (`Mesh`, `Primitive`, `Mode`), the typed
//! reference mechanism (`Index`, `Get`), a structured-encoding codec with
//! strict unknown-field rejection, and the referential-integrity check that
//! confirms every index a mesh holds resolves inside the document's bounds.

pub mod codec;
pub mod document;
pub mod mesh;
