//! The replicated-storage core of a key-value service built on Raft: the
//! durable log and snapshot store, the facade that applies committed entries
//! to the state machine, the transport's routing table and frames, and the
//! decisions of the membership controller that follows discovery.
pub mod iter;
pub mod kv;
pub mod kademlia;
pub mod log_key;
pub mod log_store;
pub mod membership;
pub mod network;
pub mod storage;
pub mod types;
pub mod wire;
