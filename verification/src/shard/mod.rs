//! Room sharding: a consistent-hash ring that maps each room to the worker
//! shard that owns it, so adding or draining a shard reassigns only the rooms
//! on that shard's arcs.

pub mod hash;
pub mod model;
pub mod ring;
pub mod placement;

pub use self::placement::{init_local, RoomPlacement};
pub use self::ring::{Reassignment, ShardId, ShardRing};
