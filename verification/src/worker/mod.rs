//! The worker side: its message vocabulary, its record store and its
//! cluster state machine.
pub mod domain;
pub mod runtime_store;
pub mod service;
