//! In-memory secret distribution over a local channel, gated by process
//! ancestry: a snapshot of the live process table decides whether a connecting
//! peer descends from the process that holds the secret, and only then are the
//! secret bytes handed out.

pub mod process_tree;
pub mod serve;
pub mod snapshot;
