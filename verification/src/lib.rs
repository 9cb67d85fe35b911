//! A local-first knowledge store: typed records (notes and topic summaries)
//! persisted alongside a semantic vector index, so that text can be retrieved
//! either by exact key or by nearest-neighbour similarity to a query vector.
//!
//! The heart of the crate is the embedding-indexed entity store: a generic
//! entity table keyed by identity, a fixed-dimension vector index with a
//! metadata mapping binding each stored vector back to its owning entity, and
//! the synchronisation logic that keeps the two in lockstep on every create,
//! update and delete. Embedding vectors themselves come from an external
//! provider; the library receives them as plain component vectors and owns
//! everything that happens after that.

pub mod codec;
pub mod embedder;
pub mod entity;
pub mod error;
pub mod index;
pub mod notes;
pub mod store;
pub mod sys;
pub mod text;
