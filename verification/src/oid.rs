//! Object ids and the map from object ids to positions.

use std::collections::HashMap;
use vstd::prelude::*;

verus! {

/// The id of a git object: its first sixteen bytes and its last four, both read big-endian.
#[derive(Clone, Copy, Debug, PartialEq, Eq, Structural, Hash)]
pub struct Oid {
    pub high: u128,
    pub low: u32,
}

/// A map from object ids to positions.
pub struct OidMap {
    entries: HashMap<u128, HashMap<u32, usize>>,
}

impl View for OidMap {
    type V = Map<Oid, usize>;

    closed spec fn view(&self) -> Map<Oid, usize> {
        Map::new(
            |oid: Oid|
                self.entries@.contains_key(oid.high) && self.entries@[oid.high]@.contains_key(
                    oid.low,
                ),
            |oid: Oid| self.entries@[oid.high]@[oid.low],
        )
    }
}

impl OidMap {
    /// The map without entries.
    pub fn new() -> (map: Self)
        ensures
            map@ == Map::<Oid, usize>::empty(),
    {
        OidMap { entries: HashMap::new() }
    }

    /// The position stored for `oid`, if there is one.
    pub fn get(&self, oid: &Oid) -> (position: Option<usize>)
        ensures
            position == (if self@.contains_key(*oid) {
                Some(self@[*oid])
            } else {
                None
            }),
    {
        match self.entries.get(&oid.high) {
            Some(lows) => match lows.get(&oid.low) {
                Some(position) => Some(*position),
                None => None,
            },
            None => None,
        }
    }

    /// Stores `position` for `oid`, in place of what was stored for it before.
    pub fn insert(&mut self, oid: Oid, position: usize)
        ensures
            final(self)@ == old(self)@.insert(oid, position),
    {
        let ghost before = self@;
        let mut lows: HashMap<u32, usize> = match self.entries.remove(&oid.high) {
            Some(lows) => lows,
            None => HashMap::new(),
        };
        lows.insert(oid.low, position);
        self.entries.insert(oid.high, lows);
        assert(self@ =~= before.insert(oid, position));
    }
}

} // verus!
