//! The [Incident] struct and its associated methods.
use vstd::prelude::*;

use crate::types::{Location, Time};

verus! {

/// Represents an incident/crime that police vehicles can respond to in the simulation.
#[derive(Clone, Copy)]
pub struct Incident {
    /// The node ID where the incident is taking place.
    location: Location,
    /// How long the police need to attend the incident until it is resolved.
    service_time: Time,
    /// The number of police vehicles required to resolve the incident.
    vehicles_required: usize,
    /// The time at which the police arrive: `None` until the incident is attended.
    resolved_time: Option<Time>,
    /// The time the incident was created.
    creation_time: Time,
    /// Is the incident reachable. Some incidents may spawn in disconnected areas of the
    /// graph with no police cars.
    valid: bool,
}

/// The abstract state of an [Incident].
pub struct IncidentState {
    pub location: Location,
    pub service_time: Time,
    pub vehicles_required: usize,
    pub resolved_time: Option<Time>,
    pub creation_time: Time,
    pub valid: bool,
}

impl IncidentState {
    /// An incident counts as solved once it has been attended, or once it is known to be
    /// unreachable.
    pub open spec fn solved(self) -> bool {
        if self.valid {
            self.resolved_time is Some
        } else {
            true
        }
    }
}

/// An incident is solved once the police have arrived, and once it is found unreachable.
pub proof fn law_attended_or_unreachable_is_solved(i: IncidentState, t: Time)
    ensures
        (IncidentState { resolved_time: Some(t), ..i }).solved(),
        (IncidentState { valid: false, ..i }).solved(),
        !i.solved() ==> i.valid && i.resolved_time is None,
{
}

/// One call that changes an incident: `solved` or `unreachable`.
pub enum IncidentCall {
    Solved { time: Time },
    Unreachable,
}

impl IncidentState {
    /// The state after `call`.
    pub open spec fn after_call(self, call: IncidentCall) -> IncidentState {
        match call {
            IncidentCall::Solved { time } => IncidentState { resolved_time: Some(time), ..self },
            IncidentCall::Unreachable => IncidentState { valid: false, ..self },
        }
    }
}

/// The state of an incident in state `i` after `calls`, in order.
pub open spec fn incident_after_calls(i: IncidentState, calls: Seq<IncidentCall>) -> IncidentState
    decreases calls.len(),
{
    if calls.len() == 0 {
        i
    } else {
        incident_after_calls(i, calls.drop_last()).after_call(calls.last())
    }
}

/// The time of the last `solved` call among `calls`, if there is one.
pub open spec fn last_solved(calls: Seq<IncidentCall>) -> Option<Time>
    decreases calls.len(),
{
    if calls.len() == 0 {
        None
    } else {
        match calls.last() {
            IncidentCall::Solved { time } => Some(time),
            IncidentCall::Unreachable => last_solved(calls.drop_last()),
        }
    }
}

/// Whatever calls an incident receives: it is valid exactly when it was and no
/// `unreachable` call came; its resolved time is the time of the last `solved` call, or
/// what it was if none came; and everything else stays.
pub proof fn law_incident_calls(i: IncidentState, calls: Seq<IncidentCall>)
    ensures
        incident_after_calls(i, calls).valid == (i.valid && !exists|k: int|
            0 <= k < calls.len() && #[trigger] calls[k] == IncidentCall::Unreachable),
        incident_after_calls(i, calls).resolved_time == match last_solved(calls) {
            Some(t) => Some(t),
            None => i.resolved_time,
        },
        incident_after_calls(i, calls).location == i.location,
        incident_after_calls(i, calls).service_time == i.service_time,
        incident_after_calls(i, calls).vehicles_required == i.vehicles_required,
        incident_after_calls(i, calls).creation_time == i.creation_time,
    decreases calls.len(),
{
    if calls.len() > 0 {
        let d = calls.drop_last();
        law_incident_calls(i, d);
        if exists|k: int| 0 <= k < d.len() && #[trigger] d[k] == IncidentCall::Unreachable {
            let k = choose|k: int| 0 <= k < d.len() && #[trigger] d[k] == IncidentCall::Unreachable;
            assert(calls[k] == d[k]);
        }
        if exists|k: int| 0 <= k < calls.len() && #[trigger] calls[k] == IncidentCall::Unreachable {
            let k = choose|k: int| 0 <= k < calls.len() && #[trigger] calls[k] == IncidentCall::Unreachable;
            if k < d.len() {
                assert(d[k] == calls[k]);
            }
        }
    }
}

impl View for Incident {
    type V = IncidentState;

    closed spec fn view(&self) -> IncidentState {
        IncidentState {
            location: self.location,
            service_time: self.service_time,
            vehicles_required: self.vehicles_required,
            resolved_time: self.resolved_time,
            creation_time: self.creation_time,
            valid: self.valid,
        }
    }
}

impl Incident {
    /// Returns a new, reachable and not yet attended incident.
    pub fn new(location: Location, service_time: Time, creation_time: Time, vehicles_required: usize) -> (i: Self)
        ensures
            i@ == (IncidentState {
                location,
                service_time,
                vehicles_required,
                resolved_time: None,
                creation_time,
                valid: true,
            }),
    {
        Incident { location, service_time, resolved_time: None, creation_time, valid: true, vehicles_required }
    }

    /// Returns the incident's node ID.
    pub fn get_location(&self) -> (l: Location)
        ensures
            l == self@.location,
    {
        self.location
    }

    /// Returns the service time of the incident.
    pub fn get_service_time(&self) -> (t: Time)
        ensures
            t == self@.service_time,
    {
        self.service_time
    }

    /// Returns the number of vehicles the incident needs.
    pub fn get_vehicles_required(&self) -> (n: usize)
        ensures
            n == self@.vehicles_required,
    {
        self.vehicles_required
    }

    /// Returns the time the police arrived, or `None` if the incident is yet to be resolved.
    pub fn get_resolved_time(&self) -> (t: Option<Time>)
        ensures
            t == self@.resolved_time,
    {
        self.resolved_time
    }

    /// Returns the creation time of the incident.
    pub fn get_creation_time(&self) -> (t: Time)
        ensures
            t == self@.creation_time,
    {
        self.creation_time
    }

    /// Sets the incident as unreachable (invalid).
    pub fn unreachable(&mut self)
        ensures
            final(self)@ == (IncidentState { valid: false, ..old(self)@ }),
    {
        self.valid = false;
    }

    /// Sets the incident as resolved at `time`.
    pub fn solved(&mut self, time: Time)
        ensures
            final(self)@ == (IncidentState { resolved_time: Some(time), ..old(self)@ }),
    {
        self.resolved_time = Some(time);
    }

    /// True if the incident is solved: attended, or unreachable.
    pub fn is_solved(&self) -> (b: bool)
        ensures
            b == self@.solved(),
    {
        if self.valid {
            match self.resolved_time {
                Some(_) => true,
                None => false,
            }
        } else {
            true
        }
    }

    /// True if the incident is reachable (valid).
    pub fn is_valid(&self) -> (b: bool)
        ensures
            b == self@.valid,
    {
        self.valid
    }
}

} // verus!
