//! FIFO queues built on an arena of index-linked nodes, together with three
//! node-reclamation disciplines (immediate free, hazard-counter gated free,
//! and epoch-deferred free) and a plain growable-buffer baseline.

mod node;

pub mod epoch;
pub mod fifo;

pub mod lock_based_queue;
pub mod lock_free_queue;
pub mod lock_free_queue_by_epoch;
pub mod lock_free_queue_no_aba;
pub mod reclaim;
