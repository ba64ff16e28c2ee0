//! The power-levels content model used by the authorisation rules.

use vstd::prelude::*;

use crate::stateres::collections::{OrdMap, ViewClone};

verus! {

/// The relevant fields of an `m.room.power_levels` event.
#[derive(Debug, PartialEq, Eq)]
pub struct PowerLevels {
    /// Explicit per-user power levels.
    pub users: OrdMap<String, i64>,
    /// The power level of users not listed in `users`.
    pub users_default: i64,
    /// Explicit per-event-type power levels required to send them.
    pub events: OrdMap<String, i64>,
    /// The level required to send a non-state event without an explicit entry.
    pub events_default: i64,
    /// The level required to send a state event without an explicit entry.
    pub state_default: i64,
    /// The level required to invite a user.
    pub invite: i64,
    /// The level required to kick a user.
    pub kick: i64,
    /// The level required to ban a user.
    pub ban: i64,
}

impl View for PowerLevels {
    type V = PowerLevels;

    open spec fn view(&self) -> PowerLevels {
        *self
    }
}

impl PowerLevels {
    /// The power level of `user`: their explicit level, or `users_default`.
    pub open spec fn level_of(&self, user: Seq<char>) -> i64 {
        if self.users@.contains_key(user) {
            self.users@[user]
        } else {
            self.users_default
        }
    }

    /// The level required to send an event of `event_type`: its explicit
    /// entry, or `state_default` / `events_default`.
    pub open spec fn required_level(&self, event_type: Seq<char>, is_state: bool) -> i64 {
        if self.events@.contains_key(event_type) {
            self.events@[event_type]
        } else if is_state {
            self.state_default
        } else {
            self.events_default
        }
    }

    /// Whether every level is zero and no user or event type is listed —
    /// the power levels of a room without a power-levels event.
    pub open spec fn is_unset(&self) -> bool {
        &&& self.users@ == Map::<Seq<char>, i64>::empty()
        &&& self.events@ == Map::<Seq<char>, i64>::empty()
        &&& self.users_default == 0
        &&& self.events_default == 0
        &&& self.state_default == 0
        &&& self.invite == 0
        &&& self.kick == 0
        &&& self.ban == 0
    }

    /// The power level of `user`: their explicit level, or `users_default`.
    pub fn for_user(&self, user: &str) -> (r: i64)
        ensures
            r == self.level_of(user@),
    {
        let key = user.to_owned();
        match self.users.get(&key) {
            Some(level) => *level,
            None => self.users_default,
        }
    }

    /// The power level required to send an event of `event_type`: its
    /// explicit entry, or `state_default` / `events_default` depending on
    /// `is_state`.
    pub fn required_for(&self, event_type: &str, is_state: bool) -> (r: i64)
        ensures
            r == self.required_level(event_type@, is_state),
    {
        let fallback = if is_state { self.state_default } else { self.events_default };
        let key = event_type.to_owned();
        match self.events.get(&key) {
            Some(level) => *level,
            None => fallback,
        }
    }

    /// A copy of these power levels.
    pub fn copy(&self) -> (r: Self)
        ensures
            r.users@ == self.users@,
            r.events@ == self.events@,
            r.users_default == self.users_default,
            r.events_default == self.events_default,
            r.state_default == self.state_default,
            r.invite == self.invite,
            r.kick == self.kick,
            r.ban == self.ban,
    {
        PowerLevels {
            users: self.users.copy(),
            users_default: self.users_default,
            events: self.events.copy(),
            events_default: self.events_default,
            state_default: self.state_default,
            invite: self.invite,
            kick: self.kick,
            ban: self.ban,
        }
    }
}

impl Default for PowerLevels {
    fn default() -> (r: Self)
        ensures
            r.is_unset(),
    {
        PowerLevels {
            users: OrdMap::new(),
            users_default: 0,
            events: OrdMap::new(),
            events_default: 0,
            state_default: 0,
            invite: 0,
            kick: 0,
            ban: 0,
        }
    }
}

} // verus!
