
//! Preparation of columns before training: encoders, imputers and scalers.
pub mod encoding;
pub mod frequency;
pub mod imputer;
pub mod incremental;
pub mod pipeline;
pub mod registry;
pub mod scaler;
pub mod table;
pub mod target_transform;
pub mod traits;
pub mod transforms;
