//! A Compact Prediction Tree: training sequences of discrete symbols are merged
//! into a shared prefix tree, which then answers approximate sub-sequence
//! matching queries and next-symbol predictions.

pub mod data_types;
pub mod nodes;
pub mod inverted_index;
pub mod cpt;
pub mod matching;
pub mod predict;
pub mod dot;
