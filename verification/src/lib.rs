//! HermesMQ: the verified core of a Raft-replicated message queue.

pub mod auto_ack_laws;
pub mod batch_laws;
pub mod batching;
pub mod batching_laws;
pub mod codec;
pub mod command;
pub mod consumer_laws;
pub mod delivery_laws;
pub mod drain_laws;
pub mod error;
pub mod flush_laws;
pub mod frame;
pub mod group;
pub mod group_laws;
pub mod history_laws;
pub mod http;
pub mod http_laws;
pub mod lease_laws;
pub mod lifecycle_laws;
pub mod log_store;
pub mod machine_store;
pub mod metrics_laws;
pub mod model;
pub mod names;
pub mod peers;
pub mod polling;
pub mod priority_laws;
pub mod produce_laws;
pub mod protocol;
pub mod protocol_laws;
pub mod queue;
pub mod queue_lemmas;
pub mod rate;
pub mod rate_laws;
pub mod recovery;
pub mod recovery_laws;
pub mod request_laws;
pub mod requests;
pub mod retention_laws;
pub mod select;
pub mod seqs;
pub mod snapshot;
pub mod state_machine;
pub mod storage;
pub mod subscription;
pub mod text;
pub mod topic;
pub mod topic_lemmas;
pub mod totals;
pub mod tracking;
pub mod tracking_laws;
pub mod tree;
pub mod types;
