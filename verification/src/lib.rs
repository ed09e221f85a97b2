pub mod engine;
pub mod laws;
