pub mod blob;
pub mod bytes_reader;
pub mod codec;
pub mod commit;
pub mod hash;
pub mod object;
pub mod repo;
pub mod tree;
pub mod tree_node;
