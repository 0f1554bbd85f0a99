//! The [Vehicle] struct and its associated methods.
use vstd::prelude::*;

use crate::types::{Location, Time};

verus! {

/// Represents a police vehicle that can navigate the graph and be ordered to respond to
/// incidents.
pub struct Vehicle {
    /// The node ID of the vehicle's base.
    base: Location,
    /// The node ID of the vehicle's current location.
    location: Location,
    /// The amount of milliseconds until the vehicle is free for new commands.
    secs_till_free: Time,
    /// The name of the vehicle. Only ever used for logging or debugging.
    name: String,
    /// The cost of the last travel the vehicle performed.
    last_travel: Time,
    /// True if the last travel the vehicle made was directly from its base.
    just_come_from_base: bool,
}

/// The abstract state of a [Vehicle].
pub struct VehicleState {
    pub base: Location,
    pub location: Location,
    pub secs_till_free: Time,
    pub name: Seq<char>,
    pub last_travel: Time,
    pub just_come_from_base: bool,
}

impl VehicleState {
    /// The state after an order to move to `target`: a free vehicle that is not already
    /// there moves and stays busy for the travel and the incident; otherwise nothing
    /// changes.
    pub open spec fn after_goto(self, target: Location, travel_time: Time, incident_time: Time) -> VehicleState {
        if self.secs_till_free > 0 || target == self.location {
            self
        } else {
            VehicleState {
                location: target,
                secs_till_free: travel_time.saturating_add(incident_time),
                last_travel: travel_time,
                just_come_from_base: self.location == self.base,
                ..self
            }
        }
    }

    /// The state after `timestep` has passed.
    pub open spec fn after_step(self, timestep: Time) -> VehicleState {
        VehicleState {
            secs_till_free: if timestep > self.secs_till_free {
                0
            } else {
                (self.secs_till_free - timestep) as Time
            },
            ..self
        }
    }

    /// The state after the vehicle is put back at its base, busy for its last travel time.
    pub open spec fn after_reset(self) -> VehicleState {
        VehicleState { location: self.base, secs_till_free: self.last_travel, ..self }
    }
}

/// Letting `a` and then `b` pass is letting `a + b` pass: the time until a vehicle is free
/// counts down by the time that passes, and stays at 0 once it gets there.
pub proof fn law_steps_compose(v: VehicleState, a: Time, b: Time)
    requires
        a + b <= u64::MAX,
    ensures
        v.after_step(a).after_step(b) == v.after_step((a + b) as Time),
{
}

/// An order to move leaves a busy vehicle, or one already at the target, unchanged.
pub proof fn law_goto_refused_changes_nothing(v: VehicleState, target: Location, travel_time: Time, incident_time: Time)
    requires
        v.secs_till_free > 0 || target == v.location,
    ensures
        v.after_goto(target, travel_time, incident_time) == v,
{
}

/// A vehicle's base and name never change: no order to move, no passing of time and no
/// reset touches them.
pub proof fn law_base_and_name_fixed(
    v: VehicleState,
    target: Location,
    travel_time: Time,
    incident_time: Time,
    timestep: Time,
)
    ensures
        v.after_goto(target, travel_time, incident_time).base == v.base,
        v.after_goto(target, travel_time, incident_time).name == v.name,
        v.after_step(timestep).base == v.base,
        v.after_step(timestep).name == v.name,
        v.after_reset().base == v.base,
        v.after_reset().name == v.name,
{
}

/// One call that changes a vehicle: `goto`, `timestep` or `reset`.
pub enum VehicleCall {
    Goto { target: Location, travel_time: Time, incident_time: Time },
    Timestep { timestep: Time },
    Reset,
}

impl VehicleState {
    /// The state after `call`.
    pub open spec fn after_call(self, call: VehicleCall) -> VehicleState {
        match call {
            VehicleCall::Goto { target, travel_time, incident_time } => self.after_goto(target, travel_time, incident_time),
            VehicleCall::Timestep { timestep } => self.after_step(timestep),
            VehicleCall::Reset => self.after_reset(),
        }
    }
}

/// The state of a vehicle in state `v` after `calls`, in order.
pub open spec fn after_calls(v: VehicleState, calls: Seq<VehicleCall>) -> VehicleState
    decreases calls.len(),
{
    if calls.len() == 0 {
        v
    } else {
        after_calls(v, calls.drop_last()).after_call(calls.last())
    }
}

/// Whatever calls a vehicle receives, it keeps the base and the name it was made with.
pub proof fn law_base_and_name_never_change(v: VehicleState, calls: Seq<VehicleCall>)
    ensures
        after_calls(v, calls).base == v.base,
        after_calls(v, calls).name == v.name,
    decreases calls.len(),
{
    if calls.len() > 0 {
        law_base_and_name_never_change(v, calls.drop_last());
    }
}

impl View for Vehicle {
    type V = VehicleState;

    closed spec fn view(&self) -> VehicleState {
        VehicleState {
            base: self.base,
            location: self.location,
            secs_till_free: self.secs_till_free,
            name: self.name@,
            last_travel: self.last_travel,
            just_come_from_base: self.just_come_from_base,
        }
    }
}

impl Vehicle {
    /// Returns a new vehicle standing free at its base.
    pub fn new(base: Location, name: String) -> (v: Self)
        ensures
            v@ == (VehicleState {
                base,
                location: base,
                secs_till_free: 0,
                name: name@,
                last_travel: 0,
                just_come_from_base: false,
            }),
    {
        Vehicle { base, location: base, secs_till_free: 0, name, last_travel: 0, just_come_from_base: false }
    }

    /// Returns the time until the vehicle is free to receive new commands.
    pub fn get_secs_till_free(&self) -> (t: Time)
        ensures
            t == self@.secs_till_free,
    {
        self.secs_till_free
    }

    /// Returns the node ID of the vehicle's current location.
    pub fn get_location(&self) -> (l: Location)
        ensures
            l == self@.location,
    {
        self.location
    }

    /// Returns the node ID of the vehicle's base.
    pub fn get_base(&self) -> (l: Location)
        ensures
            l == self@.base,
    {
        self.base
    }

    /// Returns the name of the vehicle.
    pub fn get_name(&self) -> (n: String)
        ensures
            n@ == self@.name,
    {
        self.name.clone()
    }

    /// Moves the vehicle to a new node.
    ///
    /// * `target` - The node ID of the location to move to.
    /// * `travel_time` - The time it takes for the vehicle to travel to the new location.
    /// * `incident_time` - How long the vehicle has to attend an incident there; 0 if none.
    ///
    /// Fails with "Busy" while the vehicle is not free, and with "Already Here" when it
    /// already stands at `target`; the vehicle is then left unchanged.
    pub fn goto(&mut self, target: Location, travel_time: Time, incident_time: Time) -> (r: Result<Location, &'static str>)
        ensures
            final(self)@ == old(self)@.after_goto(target, travel_time, incident_time),
            old(self)@.secs_till_free > 0 ==> r is Err && r->Err_0@ == "Busy"@,
            old(self)@.secs_till_free == 0 && target == old(self)@.location ==> r is Err
                && r->Err_0@ == "Already Here"@,
            old(self)@.secs_till_free == 0 && target != old(self)@.location ==> r == Ok::<
                Location,
                &'static str,
            >(target),
    {
        if self.secs_till_free > 0 {
            return Err("Busy");
        } else if target == self.location {
            return Err("Already Here");
        }
        if self.location == self.base {
            self.just_come_from_base = true;
        } else {
            self.just_come_from_base = false;
        }
        self.location = target;
        self.secs_till_free = travel_time.saturating_add(incident_time);
        self.last_travel = travel_time;
        Ok(target)
    }

    /// Reduces the time until the vehicle is free by `timestep`, stopping at 0.
    pub fn timestep(&mut self, timestep: Time)
        ensures
            final(self)@ == old(self)@.after_step(timestep),
    {
        if timestep > self.secs_till_free {
            self.secs_till_free = 0;
        } else {
            self.secs_till_free = self.secs_till_free - timestep;
        }
    }

    /// Resets the vehicle back to its base. The last travel time is used as a guess of
    /// how long the vehicle should be occupied for.
    ///
    /// Only meant as a last resort when a vehicle becomes trapped.
    pub fn reset(&mut self)
        ensures
            final(self)@ == old(self)@.after_reset(),
    {
        self.location = self.base;
        self.secs_till_free = self.last_travel;
    }

    /// True if the vehicle's last move started at its base.
    pub fn last_move_from_base(&self) -> (b: bool)
        ensures
            b == self@.just_come_from_base,
    {
        self.just_come_from_base
    }

    /// Returns the travel time of the vehicle's last travel.
    pub fn get_last_travel(&self) -> (t: Time)
        ensures
            t == self@.last_travel,
    {
        self.last_travel
    }
}

} // verus!
