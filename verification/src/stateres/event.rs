//! The event projection the resolution operates on.

use vstd::prelude::*;

use crate::stateres::power::PowerLevels;

verus! {

/// A Matrix event identifier (e.g. `$abc:example.org`).
pub type EventId = String;

/// The projection of a Matrix event that resolution needs: the caller
/// supplies these fields for each event (read from the store and the
/// resolved auth state), keeping the engine pure with respect to storage and
/// the wire format.
#[derive(Debug)]
pub struct Event {
    /// This event's identifier.
    pub event_id: EventId,
    /// This event's type (e.g. `m.room.power_levels`).
    pub event_type: String,
    /// This event's state key (empty for state events without a meaningful
    /// key, such as `m.room.power_levels`).
    pub state_key: String,
    /// The effective power level of this event's sender.
    pub power_level: i64,
    /// The event's `origin_server_ts`.
    pub origin_server_ts: u64,
    /// The identifiers of this event's auth events.
    pub auth_event_ids: Vec<EventId>,
    /// The user id of this event's sender.
    pub sender: String,
    /// The parsed power-levels content, for `m.room.power_levels` events.
    pub power_levels: Option<PowerLevels>,
    /// The membership (`join`/`invite`/`leave`/`ban`/`knock`), for
    /// `m.room.member` events.
    pub membership: Option<String>,
    /// The join rule (`public`/`invite`/…), for `m.room.join_rules` events.
    pub join_rule: Option<String>,
    /// The user vouching for a restricted join, for `m.room.member` events.
    pub join_authorised_via_users_server: Option<String>,
}

impl View for Event {
    type V = Event;

    open spec fn view(&self) -> Event {
        *self
    }
}

/// The views of a sequence of event identifiers.
pub open spec fn ids_view(ids: Seq<EventId>) -> Seq<Seq<char>> {
    ids.map_values(|id: EventId| id@)
}

impl Event {
    /// The state slot this event occupies: `(event_type, state_key)`.
    pub open spec fn slot(&self) -> (Seq<char>, Seq<char>) {
        (self.event_type@, self.state_key@)
    }

    /// The identifiers of this event's auth events.
    pub open spec fn auth_ids(&self) -> Seq<Seq<char>> {
        ids_view(self.auth_event_ids@)
    }

    /// This event's identifier.
    pub fn event_id(&self) -> (r: &str)
        ensures
            r@ == self.event_id@,
    {
        self.event_id.as_str()
    }

    /// This event's type.
    pub fn event_type(&self) -> (r: &str)
        ensures
            r@ == self.event_type@,
    {
        self.event_type.as_str()
    }

    /// This event's state key.
    pub fn state_key(&self) -> (r: &str)
        ensures
            r@ == self.state_key@,
    {
        self.state_key.as_str()
    }

    /// The effective power level of this event's sender.
    pub fn power_level(&self) -> (r: i64)
        ensures
            r == self.power_level,
    {
        self.power_level
    }

    /// The event's `origin_server_ts`.
    pub fn origin_server_ts(&self) -> (r: u64)
        ensures
            r == self.origin_server_ts,
    {
        self.origin_server_ts
    }

    /// The identifiers of this event's auth events.
    pub fn auth_event_ids(&self) -> (r: &[EventId])
        ensures
            r@ == self.auth_event_ids@,
    {
        self.auth_event_ids.as_slice()
    }

    /// The user id of this event's sender.
    pub fn sender(&self) -> (r: &str)
        ensures
            r@ == self.sender@,
    {
        self.sender.as_str()
    }
}

} // verus!
