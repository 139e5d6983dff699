pub mod laws;
pub mod monoid;
pub mod seg_tree;
pub mod sum;
