//! A leaderless consensus node: every participant coordinates its own
//! transactions and replicates those of the others. The node's two sides
//! and its driver are executable; each comes with a mathematical model, and
//! the models of all nodes make up a cluster whose runs are reasoned about.
//! Beside the node stand a few pieces of the database around it: what a
//! query's limit comes to, the plan node that drops tables, the tables that
//! describe an Iceberg table, and how a client follows a cluster's leader.
pub mod cluster_laws;
pub mod cluster_model;
pub mod coordinator;
pub mod coordinator_laws;
pub mod coordinator_model;
pub mod deps;
pub mod drop_tables;
pub mod iceberg;
pub mod node;
pub mod node_laws;
pub mod planner;
pub mod protocol;
pub mod raft_client;
pub mod replica;
pub mod replica_laws;
pub mod replica_model;
pub mod store;
pub mod timestamp;
pub mod topology;
