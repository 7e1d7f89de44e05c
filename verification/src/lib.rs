//! A simulator for a dynamic membership protocol on a partitioned
//! 64-bit identifier space: sections of nodes grow, shrink, split and
//! merge, every membership change ratified by a quorum of voters and
//! recorded as a chained block.

pub mod block;
pub mod blocks;
pub mod candidate;
pub mod consistency;
pub mod event;
pub mod event_schedule;
pub mod generate;
pub mod members;
pub mod merge;
pub mod message;
pub mod name;
pub mod network;
pub mod node;
pub mod params;
pub mod peer_state;
pub mod random;
pub mod simulation;
pub mod split;
pub mod util;
