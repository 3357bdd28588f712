//! NexusFS: the verified core of an offline-first, replicated filesystem.
//!
//! The modules here hold the decisions the rest of the system depends on: the CRDTs
//! that make replicas converge, the namespace rules, the energy-aware replication
//! scheduler, and the small parsers and key layouts they rest on.

pub mod text;
pub mod scan;
pub mod conflicts;
pub mod lww;
pub mod ordkey;
pub mod or_map;
pub mod telemetry;
pub mod scheduler;
pub mod link;
pub mod storage;
pub mod keys;
pub mod digest;
pub mod session;
pub mod object;
pub mod namespace;
pub mod apply;
pub mod evidence;
pub mod gc;
pub mod format;
pub mod trust;
pub mod peers;
pub mod primitives;
pub mod identity;
pub mod repo;
pub mod envelope;
pub mod inode;
pub mod handshake;
pub mod sensors;
pub mod clock;
pub mod share;
pub mod listing;
pub mod chunker;
pub mod mutate;
pub mod access;
pub mod subtree;
pub mod keyfile;
pub mod framing;
pub mod snapshot;
pub mod opkind;
pub mod replicas;
