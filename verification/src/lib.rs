//! The logic of a file system that keeps its files as blobs on several storage
//! backends.

pub mod backend;
pub mod bootstrap;
pub mod bytes;
pub mod chunk_alloc;
pub mod commit;
pub mod db;
pub mod file_tree;
pub mod lease;
pub mod leases;
pub mod maps;
pub mod prelude;
pub mod splitter;
pub mod state;
pub mod state_laws;
pub mod state_manager;
pub mod text;
pub mod tree_laws;
pub mod upload;
