pub mod text;
pub mod table;
pub mod parse;
pub mod tree;
pub mod diff;
pub mod compare;
pub mod compare_self;
pub mod color;
pub mod elf;
pub mod dwarf;
pub mod label;
pub mod tree_sizes;
pub mod tree_groups;
pub mod tree_leaves;
pub mod tree_shape;
pub mod tree_clusters;
pub mod attribution;
