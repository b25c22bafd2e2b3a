//! Node logic for a family of gossip workloads that exchange JSON messages
//! with a simulated network: echo, unique id generation, fault-tolerant
//! broadcast and a grow-only counter.
//!
//! Every workload is a deterministic state machine: a node takes one inbound
//! message, updates its state and answers with at most one reply; a timer
//! tick turns the state into the gossip messages for the node's neighbors.
//! The functions here compute those transitions on plain values. Reading and
//! writing lines, timers and locks belong to the program around the library.
//!
//! - [`topologies`]: the neighbor maps (star, full mesh, ring) over a
//!   cluster's membership.
//! - [`echo`], [`unique_id`], [`broadcast`], [`g_counter`]: one workload
//!   each, with its messages, its state and its node.
//! - [`combined`]: the node that echoes, hands out random ids and
//!   broadcasts at once.
//! - [`event`]: the events of a node's bus and what its consumer does about
//!   each.
//! - [`error`]: why a node refuses a message.
//!
//! Each workload states its transitions twice: as a function on the
//! mathematical form of state and message (`transition`, `tick`), and as the
//! methods of its node (`handle`, `gossip`), whose contracts say that they
//! compute that function. What holds of every run (a reply answers its
//! request, gossips stay within the cluster, message ids only grow, nodes
//! reconcile) is proved of the functions.

pub mod broadcast;
pub mod combined;
pub mod echo;
pub mod error;
pub mod event;
pub mod g_counter;
pub mod topologies;
pub mod unique_id;
