//! Download orchestration core of a game distribution client: bucket
//! planning, progress accounting, resumable completion records and the
//! signal-driven queue manager.

pub mod rolling;
pub mod types;
pub mod planner;
pub mod manager;
pub mod contexts;
pub mod progress;
pub mod agent;
pub mod messages;
pub mod cache;
pub mod library;
pub mod auth;
