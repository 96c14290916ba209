//! A sparse directed graph of octree nodes: a content-addressable,
//! structurally shared store for large cubic voxel volumes, with
//! copy-on-write point edits, hash-consing and reference-counted
//! reclamation, plus the Morton-order path codec that addresses cells.

pub mod node;
pub mod codec;
pub mod arena;
pub mod table;
pub mod sdg;
pub mod objects;
