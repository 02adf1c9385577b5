pub mod strategy;
pub mod types;
pub mod text;
pub mod events;
pub mod state;
pub mod config;
pub mod errors;
pub mod execution;
pub mod jupiter;
pub mod market;
pub mod reordering;
