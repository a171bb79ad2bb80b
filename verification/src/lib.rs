//! Synchronisation core of a blockchain full node.
//!
//! Candidate chain heads announced by peers are grouped into fork buckets,
//! the heaviest fork is chosen as the sync target, and a small state machine
//! tracks the progress of the node toward adopting it.

pub mod bucket;
pub mod bucket_laws;
pub mod bucket_set;
pub mod bucket_set_laws;
pub mod grouping_laws;
pub mod manager;
pub mod manager_laws;
pub mod network_handler;
pub mod peers;
pub mod peers_laws;
pub mod rpc;
pub mod tipset;

pub use crate::bucket::SyncBucket;
pub use crate::bucket_set::SyncBucketSet;
pub use crate::manager::{SyncEvents, SyncManager, SyncResults, SyncStatus};
pub use crate::rpc::{BlockSyncProtocol, InboundCodec, OutboundCodec, RPCError, RPCEvent, RequestId};
pub use crate::tipset::{Tipset, TipsetKeys};
