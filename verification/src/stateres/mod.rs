//! The deterministic state-resolution engine: partitioning of conflicting
//! state, the resolution orderings, the room authorisation rules, a
//! resolved-state cache, and the full two-pass resolution.
//!
//! The engine is pure with respect to storage, so its outputs are
//! deterministic: every event it needs is handed to it in an [`EventStore`].

pub mod collections;
pub mod power;
pub mod event;
pub mod state_map;
pub mod order;
pub mod mainline;
pub mod cache;
pub mod auth;
pub mod resolve;
pub mod laws;

pub use self::auth::{
    iterative_auth_checks, AllOf, AuthRules, CreateRules, MembershipRules, PowerLevelMutationRules,
    PowerLevelRules, RoomRules, Rule,
};
pub use self::cache::ResolvedStateCache;
pub use self::collections::{EventIdSet, OrdMap};
pub use self::event::{Event, EventId};
pub use self::mainline::{mainline_ordering, power_chains_bounded};
pub use self::order::{auth_difference, reverse_topological_power_sort};
pub use self::power::PowerLevels;
pub use self::resolve::resolve;
pub use self::state_map::{
    conflicting_event_ids, partition, ConflictedState, EventStore, Partitioned, StateKey, StateMap,
};
