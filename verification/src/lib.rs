//! Cluster membership, leader election and partition placement for a
//! manager/worker key-value cluster.
pub mod cli;
pub mod collections;
pub mod common;
pub mod manager;
pub mod worker;
