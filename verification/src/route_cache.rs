//! [RouteCache]: travel times already worked out, keyed by (source, target).
use vstd::prelude::*;
use std::collections::HashMap;

use crate::types::{Location, Time};

verus! {

broadcast use vstd::std_specs::hash::group_hash_axioms;

/// The single number under which the pair (`s`, `t`) is stored.
pub open spec fn route_key(s: Location, t: Location) -> u128 {
    (s as int * 0x1_0000_0000_0000_0000 + t as int) as u128
}

proof fn lemma_route_key_injective(a: Location, b: Location, c: Location, d: Location)
    requires
        route_key(a, b) == route_key(c, d),
    ensures
        a == c && b == d,
{
    assert(a as int * 0x1_0000_0000_0000_0000 + b as int == c as int * 0x1_0000_0000_0000_0000
        + d as int) by (nonlinear_arith)
        requires
            route_key(a, b) == route_key(c, d),
            0 <= a < 0x1_0000_0000_0000_0000,
            0 <= b < 0x1_0000_0000_0000_0000,
            0 <= c < 0x1_0000_0000_0000_0000,
            0 <= d < 0x1_0000_0000_0000_0000,
    ;
    assert(a == c && b == d) by (nonlinear_arith)
        requires
            a as int * 0x1_0000_0000_0000_0000 + b as int == c as int * 0x1_0000_0000_0000_0000
                + d as int,
            0 <= b < 0x1_0000_0000_0000_0000,
            0 <= d < 0x1_0000_0000_0000_0000,
    ;
}

/// A cache of route calculations: for a (source, target) pair it holds `Some(time)`, the
/// travel time, or `None` when the target is known to be unreachable from the source.
pub struct RouteCache {
    times: HashMap<u128, Option<Time>>,
}

impl View for RouteCache {
    type V = Map<(Location, Location), Option<Time>>;

    closed spec fn view(&self) -> Map<(Location, Location), Option<Time>> {
        Map::new(
            |p: (Location, Location)| self.times@.contains_key(route_key(p.0, p.1)),
            |p: (Location, Location)| self.times@[route_key(p.0, p.1)],
        )
    }
}

impl RouteCache {
    /// An empty cache.
    pub fn new() -> (c: Self)
        ensures
            c@ == Map::<(Location, Location), Option<Time>>::empty(),
    {
        let c = RouteCache { times: HashMap::new() };
        assert(c@ =~= Map::<(Location, Location), Option<Time>>::empty());
        c
    }

    fn key(s: Location, t: Location) -> (k: u128)
        ensures
            k == route_key(s, t),
    {
        (s as u128) * 0x1_0000_0000_0000_0000u128 + (t as u128)
    }

    /// The cached entry for (`s`, `t`), if there is one.
    pub fn get(&self, s: Location, t: Location) -> (r: Option<Option<Time>>)
        ensures
            r == (if self@.contains_key((s, t)) { Some(self@[(s, t)]) } else { None }),
    {
        let k = Self::key(s, t);
        match self.times.get(&k) {
            Some(v) => Some(*v),
            None => None,
        }
    }

    /// Records `v` for (`s`, `t`), replacing what was there.
    pub fn insert(&mut self, s: Location, t: Location, v: Option<Time>)
        ensures
            final(self)@ == old(self)@.insert((s, t), v),
    {
        let k = Self::key(s, t);
        self.times.insert(k, v);
        assert forall|p: (Location, Location)| #![auto]
            self.times@.contains_key(route_key(p.0, p.1)) && p != (s, t) implies
            old(self).times@.contains_key(route_key(p.0, p.1)) by {
            if route_key(p.0, p.1) == k {
                lemma_route_key_injective(p.0, p.1, s, t);
            }
        }
        assert forall|p: (Location, Location)| #![auto]
            old(self).times@.contains_key(route_key(p.0, p.1)) && p != (s, t) implies
            self.times@[route_key(p.0, p.1)] == old(self).times@[route_key(p.0, p.1)] by {
            if route_key(p.0, p.1) == k {
                lemma_route_key_injective(p.0, p.1, s, t);
            }
        }
        assert(self@ =~= old(self)@.insert((s, t), v));
    }
}

} // verus!
