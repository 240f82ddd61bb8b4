
//! Decision trees: their structure, how they are grown and how they predict.
pub mod constraints;
pub mod dataset;
pub mod ensemble;
pub mod grow;
pub mod histogram;
pub mod mask;
pub mod node;
pub mod partition;
pub mod routing;
pub mod shape;
pub mod split;
pub mod tree;
pub mod vector_grow;
pub mod vector_histogram;
pub mod vector_split;
pub mod vector_tree;
