//! Storage shared by the engine.

pub mod pool;
