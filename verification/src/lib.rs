pub mod bag;
pub mod data;
pub mod evaluation;
pub mod ratio;
pub mod smoothing;
pub mod utils;
