//! Bookkeeping for the conservation laws of system health: measurements are
//! recorded per room, in order, and the latest measurement of each room is
//! what the energy, entropy and capacity budgets are computed from.
//!
//! Measured quantities are binary64 bit patterns.

use vstd::prelude::*;

verus! {

/// Energy type for conservation tracking.
#[derive(Debug, Clone, Copy, PartialEq, Eq, Hash, Structural)]
pub enum EnergyType {
    Cpu,
    Memory,
    Network,
    Disk,
}

/// A health measurement for a room.
#[derive(Debug, Clone)]
pub struct HealthMeasurement {
    pub room_id: String,
    pub timestamp: u64,
    /// Energy per type, each type at most once.
    pub energy: Vec<(EnergyType, u64)>,
    pub entropy: u64,
    pub capacity_used: u64,
    pub capacity_total: u64,
}

/// The measurements of one room, oldest first.
#[derive(Debug, Clone)]
pub struct RoomHistory {
    pub room_id: String,
    pub measurements: Vec<HealthMeasurement>,
}

/// Conservation tracker for the entire PLATO system.
#[derive(Debug, Clone)]
pub struct ConservationTracker {
    /// Total system capacity budget.
    pub total_capacity: u64,
    /// Per-room measurements, at most one history per room.
    pub rooms: Vec<RoomHistory>,
}

/// The latest measurement of each room that has one, in room order.
pub open spec fn latest_of(rooms: Seq<RoomHistory>) -> Seq<HealthMeasurement>
    decreases rooms.len(),
{
    if rooms.len() == 0 {
        Seq::empty()
    } else {
        let rest = latest_of(rooms.drop_last());
        if rooms.last().measurements@.len() > 0 {
            rest.push(rooms.last().measurements@.last())
        } else {
            rest
        }
    }
}

/// The latest measurement of every room with one is among the latest
/// measurements.
pub proof fn lemma_latest_contains(rooms: Seq<RoomHistory>, i: int)
    requires
        0 <= i < rooms.len(),
        rooms[i].measurements@.len() > 0,
    ensures
        latest_of(rooms).contains(rooms[i].measurements@.last()),
    decreases rooms.len(),
{
    let rest = latest_of(rooms.drop_last());
    if i == rooms.len() - 1 {
        assert(rooms.last() == rooms[i]);
        assert(latest_of(rooms) == rest.push(rooms[i].measurements@.last()));
        assert(latest_of(rooms)[rest.len() as int] == rooms[i].measurements@.last());
    } else {
        assert(rooms.drop_last()[i] == rooms[i]);
        lemma_latest_contains(rooms.drop_last(), i);
        let k = choose|k: int| 0 <= k < rest.len() && rest[k] == rooms[i].measurements@.last();
        if rooms.last().measurements@.len() > 0 {
            assert(latest_of(rooms)[k] == rest[k]);
        }
    }
}

/// Views of a sequence of measurement references.
pub open spec fn measurement_refs(refs: Seq<&HealthMeasurement>) -> Seq<HealthMeasurement> {
    refs.map_values(|m: &HealthMeasurement| *m)
}

impl ConservationTracker {
    /// A tracker with the given capacity budget and no rooms.
    pub fn new(total_capacity: u64) -> (t: Self)
        ensures
            t.total_capacity == total_capacity,
            t.rooms@.len() == 0,
    {
        ConservationTracker { total_capacity, rooms: Vec::new() }
    }

    /// No two histories are for the same room.
    pub open spec fn rooms_distinct(&self) -> bool {
        forall|i: int, j: int|
            0 <= i < self.rooms@.len() && 0 <= j < self.rooms@.len() && i != j ==> (
            #[trigger] self.rooms@[i]).room_id@ != (#[trigger] self.rooms@[j]).room_id@
    }

    /// Record a measurement: it is appended to the history of its room,
    /// which is started (after the others) if the room has none.
    pub fn record(&mut self, measurement: HealthMeasurement)
        ensures
            final(self).total_capacity == old(self).total_capacity,
            (forall|i: int|
                0 <= i < old(self).rooms@.len() ==> (#[trigger] old(self).rooms@[i]).room_id@
                    != measurement.room_id@) ==> final(self).rooms@.len() == old(self).rooms@.len() + 1
                && final(self).rooms@.drop_last() == old(self).rooms@ && final(self).rooms@.last().room_id@
                == measurement.room_id@ && final(self).rooms@.last().measurements@ == seq![measurement],
            forall|i: int|
                0 <= i < old(self).rooms@.len() && (#[trigger] old(self).rooms@[i]).room_id@
                    == measurement.room_id@ && (forall|j: int|
                    0 <= j < i ==> old(self).rooms@[j].room_id@ != measurement.room_id@) ==> {
                    &&& final(self).rooms@.len() == old(self).rooms@.len()
                    &&& forall|k: int|
                        0 <= k < old(self).rooms@.len() && k != i ==> final(self).rooms@[k] == old(self).rooms@[k]
                    &&& final(self).rooms@[i].room_id == old(self).rooms@[i].room_id
                    &&& final(self).rooms@[i].measurements@ == old(self).rooms@[i].measurements@.push(
                        measurement,
                    )
                },
            old(self).rooms_distinct() ==> final(self).rooms_distinct(),
            latest_of(final(self).rooms@).contains(measurement),
    {
        let mut i: usize = 0;
        while i < self.rooms.len()
            invariant
                i <= self.rooms.len(),
                self.rooms == old(self).rooms,
                self.total_capacity == old(self).total_capacity,
                forall|j: int| 0 <= j < i ==> (#[trigger] self.rooms@[j]).room_id@ != measurement.room_id@,
            decreases self.rooms.len() - i,
        {
            if self.rooms[i].room_id == measurement.room_id {
                let ghost before = self.rooms@;
                let mut history = RoomHistory { room_id: String::new(), measurements: Vec::new() };
                std::mem::swap(&mut history, &mut self.rooms[i]);
                history.measurements.push(measurement);
                std::mem::swap(&mut history, &mut self.rooms[i]);
                proof {
                    assert(self.rooms@[i as int].measurements@.last() == measurement);
                    lemma_latest_contains(self.rooms@, i as int);
                    assert forall|k: int|
                        0 <= k < before.len() && (#[trigger] before[k]).room_id@ == measurement.room_id@
                            && (forall|j: int| 0 <= j < k ==> before[j].room_id@ != measurement.room_id@) implies k
                        == i by {
                        if k > i {
                            assert(before[i as int].room_id@ == measurement.room_id@);
                        }
                    }
                    assert forall|a: int, b: int|
                        0 <= a < self.rooms@.len() && 0 <= b < self.rooms@.len() && a != b
                            && old(self).rooms_distinct() implies (#[trigger] self.rooms@[a]).room_id@
                        != (#[trigger] self.rooms@[b]).room_id@ by {
                        if a != i {
                            assert(before[a] == self.rooms@[a]);
                        }
                        if b != i {
                            assert(before[b] == self.rooms@[b]);
                        }
                    }
                }
                return;
            }
            i = i + 1;
        }
        let ghost before = self.rooms@;
        let room_id = measurement.room_id.clone();
        let mut measurements: Vec<HealthMeasurement> = Vec::new();
        measurements.push(measurement);
        self.rooms.push(RoomHistory { room_id, measurements });
        proof {
            assert(self.rooms@.drop_last() =~= before);
            assert(self.rooms@.last().measurements@ =~= seq![measurement]);
            lemma_latest_contains(self.rooms@, self.rooms@.len() - 1);
            assert forall|a: int, b: int|
                0 <= a < self.rooms@.len() && 0 <= b < self.rooms@.len() && a != b
                    && old(self).rooms_distinct() implies (#[trigger] self.rooms@[a]).room_id@ != (
            #[trigger] self.rooms@[b]).room_id@ by {
                if a < before.len() {
                    assert(before[a] == self.rooms@[a]);
                }
                if b < before.len() {
                    assert(before[b] == self.rooms@[b]);
                }
            }
        }
    }

    /// The latest measurement of each room that has one, in room order.
    pub fn latest_measurements(&self) -> (latest: Vec<&HealthMeasurement>)
        ensures
            measurement_refs(latest@) == latest_of(self.rooms@),
    {
        let mut latest: Vec<&HealthMeasurement> = Vec::new();
        let mut i: usize = 0;
        while i < self.rooms.len()
            invariant
                i <= self.rooms.len(),
                measurement_refs(latest@) == latest_of(self.rooms@.take(i as int)),
            decreases self.rooms.len() - i,
        {
            let history = &self.rooms[i];
            let ghost prev = latest@;
            if history.measurements.len() > 0 {
                latest.push(&history.measurements[history.measurements.len() - 1]);
                proof {
                    assert(measurement_refs(latest@) =~= measurement_refs(prev).push(
                        history.measurements@.last(),
                    ));
                }
            }
            proof {
                assert(self.rooms@.take(i + 1).drop_last() =~= self.rooms@.take(i as int));
            }
            i = i + 1;
        }
        proof {
            assert(self.rooms@.take(self.rooms@.len() as int) =~= self.rooms@);
        }
        latest
    }

    /// Number of rooms.
    pub fn len(&self) -> (n: usize)
        ensures
            n == self.rooms@.len(),
    {
        self.rooms.len()
    }

    /// Whether no room has been recorded.
    pub fn is_empty(&self) -> (r: bool)
        ensures
            r == (self.rooms@.len() == 0),
    {
        self.rooms.len() == 0
    }
}

/// The room histories that hold at least one measurement, in order.
pub open spec fn measured_rooms(rooms: Seq<RoomHistory>) -> Seq<RoomHistory> {
    rooms.filter(|h: RoomHistory| h.measurements@.len() > 0)
}

/// The last recorded measurement of each history.
pub open spec fn last_recorded(rooms: Seq<RoomHistory>) -> Seq<HealthMeasurement> {
    rooms.map_values(|h: RoomHistory| h.measurements@.last())
}

/// The latest measurements are exactly one per room that has
/// measurements, in room order: the last one recorded for it.
pub proof fn law_latest_per_room(rooms: Seq<RoomHistory>)
    ensures
        latest_of(rooms) == last_recorded(measured_rooms(rooms)),
        latest_of(rooms).len() <= rooms.len(),
    decreases rooms.len(),
{
    reveal(Seq::filter);
    if rooms.len() > 0 {
        law_latest_per_room(rooms.drop_last());
        let front = measured_rooms(rooms.drop_last());
        if rooms.last().measurements@.len() > 0 {
            assert(measured_rooms(rooms) == front.push(rooms.last()));
            assert(last_recorded(front.push(rooms.last())) =~= last_recorded(front).push(
                rooms.last().measurements@.last(),
            ));
        } else {
            assert(measured_rooms(rooms) == front);
        }
    } else {
        assert(last_recorded(measured_rooms(rooms)) =~= Seq::<HealthMeasurement>::empty());
    }
}

} // verus!
