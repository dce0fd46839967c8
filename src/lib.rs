pub mod image;
pub mod log;
pub mod membership;
pub mod messages;
pub mod raft;
pub mod segment;
pub mod state_machine;
pub mod types;
