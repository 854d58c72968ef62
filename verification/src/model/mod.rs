//! Data model of the control plane: message descriptors, message kinds and
//! routing entries.

pub mod control_plane;
pub mod messages;
pub mod metric;
pub mod routing;
pub mod state;
