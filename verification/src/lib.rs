//! A collaborative text-editing engine built on the Replicated Growable Array
//! (RGA) CRDT.
//!
//! The document is stored as single-character nodes. An insert names the node
//! to its left; a delete turns a node into a tombstone instead of removing it,
//! so that later operations that still name the deleted node apply safely.
//!
//! [`Replica`] is the entry point for normal use. It owns an [`Rga`],
//! remembers which [`Op`] ids it has applied, and keeps an operation log that
//! rebuilds the document on newly connected peers. Local edits go through
//! [`Replica::local_insert`] and [`Replica::local_delete`]; incoming operations
//! through [`Replica::apply_remote`] and [`Replica::apply_remote_batch`].
//!
//! [`session`] holds the server's side of a shared document: the replica the
//! server keeps, its operation log, the connected clients and their cursors.
//! [`crdt`] holds the linked-list RGA of Roh et al. addressed by quadruple
//! vectors ([`s4vector`]), with a sync server that keeps one replica per
//! client and a relay server.
pub mod compaction;
pub mod convergence;
pub mod crdt;
pub mod editing;
pub mod id;
pub mod insertion;
pub mod laws;
pub mod lww;
pub mod model;
pub mod node;
pub mod op;
pub mod replay;
pub mod replica;
pub mod rga;
pub mod s4vector;
pub mod same_ops;
pub mod session;
pub mod traversal;

pub use id::NodeId;
pub use id::OperationId;
pub use id::ReplicaId;
pub use id::SessionId;
pub use lww::LwwRegister;
pub use op::ApplyOutcome;
pub use op::Op;
pub use replica::Replica;
pub use rga::Rga;
pub use rga::RgaError;
pub use rga::RgaTree;
pub use rga::RgaTreeNode;
