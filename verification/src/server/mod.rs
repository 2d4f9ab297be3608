pub mod types;
pub mod queue;
pub mod best;
