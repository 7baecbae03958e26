//! Planning and checking for a sharded key-value cluster of 16384 hash
//! slots: parsing of member addresses and topology reports, the slot
//! allocator, the consistency check, and the plans for creating, growing,
//! shrinking, resharding and repairing a cluster. The network side carries
//! the plans out.
pub mod add;
pub mod cluster;
pub mod create;
pub mod migration;
pub mod node;
pub mod repair;
pub mod slots;
pub mod topology;

pub use add::Add;
pub use cluster::{Cluster, DeletePlan, Move};
pub use create::Create;
pub use migration::{migrate_slot, Action, Event, Migration, Phase, SlotState};
pub use node::{Error, Node, Role};
pub use repair::Repair;
pub use slots::{divide, slpit_slots, spread, Chunk, CLUSTER_SLOTS};
