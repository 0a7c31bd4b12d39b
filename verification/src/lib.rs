//! Grouping of surface instances into render bundles.

pub mod bundle;
pub mod context;
pub mod field_laws;
pub mod fx;
pub mod graph;
pub mod identifier;
pub mod instance;
pub mod keys;
pub mod laws;
pub mod lod_laws;
pub mod preorder;
pub mod push_laws;
pub mod pushed;
pub mod pushes;
pub mod resource;
pub mod storage;
pub mod traversal;
pub mod visit_laws;
