//! The search for good hyperparameters.

pub mod autotuner;
pub mod cartesian;
pub mod config;
pub mod course;
pub mod evaluation;
pub mod grid;
pub mod history;
pub mod ltt;
pub mod ltt_tuner;
pub mod metrics;
pub mod realistic;
pub mod sampling;
pub mod space;
pub mod trial;
