pub mod decimal;
pub mod laws;
pub mod query;
pub mod state;
pub mod task;
