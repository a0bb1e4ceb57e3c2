pub mod bst;
pub mod btree;
pub mod bst_laws;
pub mod bst_delete;
