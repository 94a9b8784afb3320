//! The manager side: its message vocabulary and its cluster state machine.
pub mod cluster_state;
pub mod connection;
pub mod domain;
pub mod election;
pub mod events;
pub mod heartbeat;
pub mod partitions;
pub mod service;
pub mod state;
