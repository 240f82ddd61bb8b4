//! Gradient boosted decision trees: tree growing, preprocessing and tuning.

pub mod bindings;
pub mod error;
pub mod exact;
pub mod functions;
pub mod number;
pub mod preprocessing;
pub mod random;
pub mod text;
pub mod text_map;
pub mod tree;
pub mod tuner;
