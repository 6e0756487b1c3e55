//! Decision trees by the ID3 algorithm over tables of string values.
pub mod values;
pub mod table;
pub mod tree;
pub mod id3;
pub mod select;
pub mod load;
pub mod folds;
