//! A verified core for synchronizing layered key-value state between a
//! server and its clients.

pub mod order;
pub mod sorted_map;
pub mod zeno_index;
pub mod comparisons;
pub mod opaque_index;
pub mod prefix_map;
pub mod listener;
pub mod store;
pub mod iter;
pub mod handle;
pub mod state_machine;
pub mod counter;
pub mod messages;
pub mod server;
pub mod client;
pub mod atom_rc;
pub mod constant;
pub mod aper;
pub mod connection;
pub mod treemap;
pub mod list;
pub mod state_map;
pub mod convergence;
