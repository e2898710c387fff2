//! The road registry: the shared coordination table of the speed daemon.
//!
//! One [`RoadState`] exists per road number observed.  It owns the per-plate
//! sighting history (kept ordered by timestamp), the calendar days already
//! ticketed per plate, the dispatcher connections currently bound to the
//! road, and the queue of tickets awaiting a dispatcher.  Recording a
//! sighting evaluates it against every earlier sighting of the same plate on
//! the same road, tickets each warranted pair whose day range is still free,
//! and either hands the tickets out for delivery (a dispatcher is bound) or
//! queues them in arrival order.  A plate is never ticketed twice for
//! overlapping day ranges.

use vstd::prelude::*;
use vstd::pervasive::VecAdditionalExecFns;
use crate::codec::Ticket;
use crate::codec::TicketV;
use crate::engine::Sighting;
use crate::engine::evaluate;
use crate::engine::clone_bytes;
use crate::engine::lemma_day_ordered;
use crate::engine::spec_day;
use crate::engine::spec_earlier;
use crate::engine::spec_later;
use crate::engine::spec_over_limit;
use crate::engine::spec_ticket;
use crate::engine::SECONDS_PER_DAY;

verus! {

/// An inclusive range of calendar days covered by one issued ticket.
#[derive(Clone, Copy, Debug, PartialEq, Eq, Structural)]
pub struct DayRange {
    pub first: u32,
    pub last: u32,
}

/// What the registry knows of one plate on one road.
#[derive(Clone, Debug)]
pub struct PlateRecord {
    pub plate: Vec<u8>,
    pub sightings: Vec<Sighting>,
    pub ticketed: Vec<DayRange>,
}

/// A road's fixed datum: the last speed limit a camera reported for it.
#[derive(Clone, Copy, Debug, PartialEq, Eq, Structural)]
pub struct Road {
    pub speed_limit: u16,
}

/// Everything the registry keeps for one road number.
#[derive(Clone, Debug)]
pub struct RoadState {
    pub road: u16,
    pub limit: Road,
    pub plates: Vec<PlateRecord>,
    pub dispatchers: Vec<u64>,
    pub pending: Vec<Ticket>,
}

/// The shared coordination table, one entry per road observed.
#[derive(Clone, Debug)]
pub struct Registry {
    pub roads: Vec<RoadState>,
}

/// What one recorded sighting produced: the tickets emitted, and the set of
/// ticketed days afterwards.
pub struct ProcessOut {
    pub tickets: Seq<TicketV>,
    pub days: Set<int>,
}

// ---------------------------------------------------------------------------
// The mathematical model
// ---------------------------------------------------------------------------

/// Index of the first entry for `road`, or -1.
pub open spec fn road_idx(roads: Seq<RoadState>, road: u16) -> int
    decreases roads.len(),
{
    if roads.len() == 0 {
        -1
    } else if roads[0].road == road {
        0
    } else {
        let k = road_idx(roads.drop_first(), road);
        if k == -1 {
            -1
        } else {
            k + 1
        }
    }
}

/// Index of the first record for `plate`, or -1.
pub open spec fn plate_idx(plates: Seq<PlateRecord>, plate: Seq<u8>) -> int
    decreases plates.len(),
{
    if plates.len() == 0 {
        -1
    } else if plates[0].plate@ == plate {
        0
    } else {
        let k = plate_idx(plates.drop_first(), plate);
        if k == -1 {
            -1
        } else {
            k + 1
        }
    }
}

/// The views of a ticket list, in order.
pub open spec fn tickets_view(ts: Seq<Ticket>) -> Seq<TicketV> {
    ts.map(|i: int, t: Ticket| t@)
}

/// The days a range covers.
pub open spec fn range_days(r: DayRange) -> Set<int> {
    Set::new(|d: int| r.first <= d <= r.last)
}

/// The days any of the ranges covers.
pub open spec fn ranges_days(rs: Seq<DayRange>) -> Set<int>
    decreases rs.len(),
{
    if rs.len() == 0 {
        Set::empty()
    } else {
        range_days(rs[0]).union(ranges_days(rs.drop_first()))
    }
}

/// No day in `d1 ..= d2` is among `days`.
pub open spec fn days_free(days: Set<int>, d1: int, d2: int) -> bool {
    forall|d: int| d1 <= d <= d2 ==> !days.contains(d)
}

/// The sighting history recorded for `plate`.
pub open spec fn plate_sightings(plates: Seq<PlateRecord>, plate: Seq<u8>) -> Seq<Sighting> {
    let k = plate_idx(plates, plate);
    if k == -1 {
        Seq::empty()
    } else {
        plates[k].sightings@
    }
}

/// The days already ticketed for `plate`.
pub open spec fn plate_days(plates: Seq<PlateRecord>, plate: Seq<u8>) -> Set<int> {
    let k = plate_idx(plates, plate);
    if k == -1 {
        Set::empty()
    } else {
        ranges_days(plates[k].ticketed@)
    }
}

/// Where a new sighting enters a time-ordered history: after every sighting
/// not later than it.
pub open spec fn insert_pos(s: Seq<Sighting>, x: Sighting) -> int
    decreases s.len(),
{
    if s.len() == 0 {
        0
    } else if x.timestamp < s[0].timestamp {
        0
    } else {
        1 + insert_pos(s.drop_first(), x)
    }
}

/// A history with a new sighting inserted in timestamp order.
pub open spec fn spec_insert(s: Seq<Sighting>, x: Sighting) -> Seq<Sighting> {
    s.insert(insert_pos(s, x), x)
}

/// Nondecreasing timestamps.
pub open spec fn sorted(s: Seq<Sighting>) -> bool {
    forall|i: int, j: int|
        0 <= i <= j < s.len() ==> #[trigger] s[i].timestamp <= #[trigger] s[j].timestamp
}

/// What recording one sighting does, pair by pair: each earlier sighting of
/// the plate is taken in history order; a pair strictly over the limit whose
/// day range is still wholly free yields a ticket and claims its days.
pub open spec fn spec_process(
    history: Seq<Sighting>,
    new: Sighting,
    plate: Seq<u8>,
    road: u16,
    limit: u16,
    days0: Set<int>,
) -> ProcessOut
    decreases history.len(),
{
    if history.len() == 0 {
        ProcessOut { tickets: Seq::empty(), days: days0 }
    } else {
        let s = history[0];
        let d1 = spec_day(spec_earlier(s, new).timestamp);
        let d2 = spec_day(spec_later(s, new).timestamp);
        if spec_over_limit(s, new, limit) && days_free(days0, d1, d2) {
            let rest = spec_process(
                history.drop_first(),
                new,
                plate,
                road,
                limit,
                days0.union(Set::new(|d: int| d1 <= d <= d2)),
            );
            ProcessOut {
                tickets: seq![spec_ticket(plate, road, s, new)] + rest.tickets,
                days: rest.days,
            }
        } else {
            spec_process(history.drop_first(), new, plate, road, limit, days0)
        }
    }
}

impl PlateRecord {
    pub open spec fn wf(self) -> bool {
        &&& sorted(self.sightings@)
        &&& forall|i: int|
            0 <= i < self.ticketed@.len() ==> (#[trigger] self.ticketed@[i]).first
                <= self.ticketed@[i].last
    }
}

impl RoadState {
    pub open spec fn wf(self) -> bool {
        forall|i: int| 0 <= i < self.plates@.len() ==> (#[trigger] self.plates@[i]).wf()
    }
}

impl Registry {
    pub open spec fn wf(self) -> bool {
        forall|i: int| 0 <= i < self.roads@.len() ==> (#[trigger] self.roads@[i]).wf()
    }

    pub open spec fn has_road(self, road: u16) -> bool {
        road_idx(self.roads@, road) != -1
    }

    pub open spec fn road_state(self, road: u16) -> RoadState {
        self.roads@[road_idx(self.roads@, road)]
    }

    /// The last limit a camera reported for the road.
    pub open spec fn limit_of(self, road: u16) -> u16 {
        self.road_state(road).limit.speed_limit
    }

    /// The dispatcher connections bound to the road, oldest binding first.
    pub open spec fn dispatchers_of(self, road: u16) -> Seq<u64> {
        if self.has_road(road) {
            self.road_state(road).dispatchers@
        } else {
            Seq::empty()
        }
    }

    /// The tickets awaiting a dispatcher for the road, oldest first.
    pub open spec fn pending_of(self, road: u16) -> Seq<TicketV> {
        if self.has_road(road) {
            tickets_view(self.road_state(road).pending@)
        } else {
            Seq::empty()
        }
    }

    /// The time-ordered sightings of `plate` on `road`.
    pub open spec fn sightings_of(self, road: u16, plate: Seq<u8>) -> Seq<Sighting> {
        if self.has_road(road) {
            plate_sightings(self.road_state(road).plates@, plate)
        } else {
            Seq::empty()
        }
    }

    /// The calendar days already ticketed for `plate` on `road`.
    pub open spec fn ticketed_of(self, road: u16, plate: Seq<u8>) -> Set<int> {
        if self.has_road(road) {
            plate_days(self.road_state(road).plates@, plate)
        } else {
            Set::empty()
        }
    }

    /// Nothing about `road` differs between `self` and `other`.
    pub open spec fn road_untouched(self, other: Registry, road: u16) -> bool {
        &&& self.has_road(road) == other.has_road(road)
        &&& self.dispatchers_of(road) == other.dispatchers_of(road)
        &&& self.pending_of(road) == other.pending_of(road)
        &&& (self.has_road(road) ==> self.limit_of(road) == other.limit_of(road))
        &&& (forall|q: Seq<u8>| #[trigger] self.sightings_of(road, q) == other.sightings_of(
            road,
            q,
        ))
        &&& (forall|q: Seq<u8>| #[trigger] self.ticketed_of(road, q) == other.ticketed_of(road, q))
    }
}

// ---------------------------------------------------------------------------
// Lemmas about the model
// ---------------------------------------------------------------------------

/// A found road index is in range and names the road; a miss means no entry
/// names it.
pub proof fn lemma_road_idx_bounds(roads: Seq<RoadState>, road: u16)
    ensures
        road_idx(roads, road) == -1 ==> forall|j: int|
            0 <= j < roads.len() ==> (#[trigger] roads[j]).road != road,
        road_idx(roads, road) != -1 ==> 0 <= road_idx(roads, road) < roads.len() && roads[road_idx(
            roads,
            road,
        )].road == road,
        road_idx(roads, road) != -1 ==> forall|j: int|
            0 <= j < road_idx(roads, road) ==> (#[trigger] roads[j]).road != road,
    decreases roads.len(),
{
    if roads.len() > 0 {
        lemma_road_idx_bounds(roads.drop_first(), road);
        if road_idx(roads, road) == -1 {
            assert forall|j: int| 0 <= j < roads.len() implies (#[trigger] roads[j]).road
                != road by {
                if j > 0 {
                    assert(roads[j] == roads.drop_first()[j - 1]);
                }
            }
        } else {
            if roads[0].road != road {
                let k = road_idx(roads.drop_first(), road);
                assert(roads[k + 1] == roads.drop_first()[k]);
                assert forall|j: int| 0 <= j < road_idx(roads, road) implies (#[trigger] roads[j]).road
                    != road by {
                    if j > 0 {
                        assert(roads[j] == roads.drop_first()[j - 1]);
                    }
                }
            }
        }
    }
}

/// The first index whose entry names `road` is the road index.
pub proof fn lemma_road_idx_first(roads: Seq<RoadState>, road: u16, i: int)
    requires
        0 <= i <= roads.len(),
        forall|j: int| 0 <= j < i ==> (#[trigger] roads[j]).road != road,
        i == roads.len() || roads[i].road == road,
    ensures
        road_idx(roads, road) == if i == roads.len() {
            -1
        } else {
            i
        },
    decreases roads.len(),
{
    if roads.len() > 0 {
        if i == 0 {
            if roads[0].road != road {
                lemma_road_idx_first(roads.drop_first(), road, 0);
            }
        } else {
            assert(roads[0].road != road);
            assert(forall|j: int|
                0 <= j < i - 1 ==> (#[trigger] roads.drop_first()[j]).road == roads[j + 1].road);
            assert(i - 1 == roads.drop_first().len() || roads.drop_first()[i - 1].road == road);
            lemma_road_idx_first(roads.drop_first(), road, i - 1);
        }
    }
}

/// Appending a road entry leaves every earlier lookup alone; a missing road
/// is found at the end exactly when the new entry names it.
pub proof fn lemma_road_idx_push(roads: Seq<RoadState>, st: RoadState, road: u16)
    ensures
        road_idx(roads, road) != -1 ==> road_idx(roads.push(st), road) == road_idx(roads, road),
        road_idx(roads, road) == -1 && st.road == road ==> road_idx(roads.push(st), road)
            == roads.len() as int,
        road_idx(roads, road) == -1 && st.road != road ==> road_idx(roads.push(st), road) == -1,
{
    let t = roads.push(st);
    let k0 = road_idx(roads, road);
    lemma_road_idx_bounds(roads, road);
    if k0 != -1 {
        assert(forall|j: int| 0 <= j < k0 ==> (#[trigger] t[j]).road != road);
        assert(t[k0].road == road);
        lemma_road_idx_first(t, road, k0);
    } else if st.road == road {
        assert(forall|j: int| 0 <= j < roads.len() ==> (#[trigger] t[j]).road != road);
        assert(t[roads.len() as int].road == road);
        lemma_road_idx_first(t, road, roads.len() as int);
    } else {
        assert(forall|j: int| 0 <= j < t.len() ==> (#[trigger] t[j]).road != road);
        lemma_road_idx_first(t, road, t.len() as int);
    }
}

/// Replacing an entry with one naming the same road moves no lookup.
pub proof fn lemma_road_idx_update(roads: Seq<RoadState>, k: int, st: RoadState, road: u16)
    requires
        0 <= k < roads.len(),
        st.road == roads[k].road,
    ensures
        road_idx(roads.update(k, st), road) == road_idx(roads, road),
    decreases roads.len(),
{
    if roads.len() > 0 {
        if k == 0 {
            assert(roads.update(0, st)[0] == st);
            assert(roads.update(0, st).drop_first() =~= roads.drop_first());
        } else {
            lemma_road_idx_update(roads.drop_first(), k - 1, st, road);
            assert(roads.update(k, st)[0] == roads[0]);
            assert(roads.update(k, st).drop_first() =~= roads.drop_first().update(k - 1, st));
        }
    }
}

/// A found plate index is in range and holds the plate; a miss means no
/// record holds it.
pub proof fn lemma_plate_idx_bounds(plates: Seq<PlateRecord>, plate: Seq<u8>)
    ensures
        plate_idx(plates, plate) == -1 ==> forall|j: int|
            0 <= j < plates.len() ==> (#[trigger] plates[j]).plate@ != plate,
        plate_idx(plates, plate) != -1 ==> 0 <= plate_idx(plates, plate) < plates.len()
            && plates[plate_idx(plates, plate)].plate@ == plate,
        plate_idx(plates, plate) != -1 ==> forall|j: int|
            0 <= j < plate_idx(plates, plate) ==> (#[trigger] plates[j]).plate@ != plate,
    decreases plates.len(),
{
    if plates.len() > 0 {
        lemma_plate_idx_bounds(plates.drop_first(), plate);
        if plate_idx(plates, plate) == -1 {
            assert forall|j: int| 0 <= j < plates.len() implies (#[trigger] plates[j]).plate@
                != plate by {
                if j > 0 {
                    assert(plates[j] == plates.drop_first()[j - 1]);
                }
            }
        } else {
            if plates[0].plate@ != plate {
                let k = plate_idx(plates.drop_first(), plate);
                assert(plates[k + 1] == plates.drop_first()[k]);
                assert forall|j: int| 0 <= j < plate_idx(plates, plate) implies (#[trigger] plates[j]).plate@
                    != plate by {
                    if j > 0 {
                        assert(plates[j] == plates.drop_first()[j - 1]);
                    }
                }
            }
        }
    }
}

/// The first index whose record holds `plate` is the plate index.
pub proof fn lemma_plate_idx_first(plates: Seq<PlateRecord>, plate: Seq<u8>, i: int)
    requires
        0 <= i <= plates.len(),
        forall|j: int| 0 <= j < i ==> (#[trigger] plates[j]).plate@ != plate,
        i == plates.len() || plates[i].plate@ == plate,
    ensures
        plate_idx(plates, plate) == if i == plates.len() {
            -1
        } else {
            i
        },
    decreases plates.len(),
{
    if plates.len() > 0 {
        if i == 0 {
            if plates[0].plate@ != plate {
                lemma_plate_idx_first(plates.drop_first(), plate, 0);
            }
        } else {
            assert(plates[0].plate@ != plate);
            assert(forall|j: int|
                0 <= j < i - 1 ==> (#[trigger] plates.drop_first()[j]).plate@ == plates[j
                    + 1].plate@);
            assert(i - 1 == plates.drop_first().len() || plates.drop_first()[i - 1].plate@
                == plate);
            lemma_plate_idx_first(plates.drop_first(), plate, i - 1);
        }
    }
}

/// Appending a plate record leaves every earlier lookup alone; a missing
/// plate is found at the end exactly when the new record holds it.
pub proof fn lemma_plate_idx_push(plates: Seq<PlateRecord>, pr: PlateRecord, plate: Seq<u8>)
    ensures
        plate_idx(plates, plate) != -1 ==> plate_idx(plates.push(pr), plate) == plate_idx(
            plates,
            plate,
        ),
        plate_idx(plates, plate) == -1 && pr.plate@ == plate ==> plate_idx(plates.push(pr), plate)
            == plates.len() as int,
        plate_idx(plates, plate) == -1 && pr.plate@ != plate ==> plate_idx(plates.push(pr), plate)
            == -1,
{
    let t = plates.push(pr);
    let k0 = plate_idx(plates, plate);
    lemma_plate_idx_bounds(plates, plate);
    if k0 != -1 {
        assert(forall|j: int| 0 <= j < k0 ==> (#[trigger] t[j]).plate@ != plate);
        assert(t[k0].plate@ == plate);
        lemma_plate_idx_first(t, plate, k0);
    } else if pr.plate@ == plate {
        assert(forall|j: int| 0 <= j < plates.len() ==> (#[trigger] t[j]).plate@ != plate);
        assert(t[plates.len() as int].plate@ == plate);
        lemma_plate_idx_first(t, plate, plates.len() as int);
    } else {
        assert(forall|j: int| 0 <= j < t.len() ==> (#[trigger] t[j]).plate@ != plate);
        lemma_plate_idx_first(t, plate, t.len() as int);
    }
}

/// Replacing a record with one holding the same plate moves no lookup.
pub proof fn lemma_plate_idx_update(plates: Seq<PlateRecord>, k: int, pr: PlateRecord, plate: Seq<
    u8,
>)
    requires
        0 <= k < plates.len(),
        pr.plate@ == plates[k].plate@,
    ensures
        plate_idx(plates.update(k, pr), plate) == plate_idx(plates, plate),
    decreases plates.len(),
{
    if plates.len() > 0 {
        if k == 0 {
            assert(plates.update(0, pr)[0] == pr);
            assert(plates.update(0, pr).drop_first() =~= plates.drop_first());
        } else {
            lemma_plate_idx_update(plates.drop_first(), k - 1, pr, plate);
            assert(plates.update(k, pr)[0] == plates[0]);
            assert(plates.update(k, pr).drop_first() =~= plates.drop_first().update(k - 1, pr));
        }
    }
}

/// A day is covered by a range list exactly when one of its ranges covers it.
pub proof fn lemma_ranges_days(rs: Seq<DayRange>)
    ensures
        forall|d: int|
            #[trigger] ranges_days(rs).contains(d) <==> exists|i: int|
                0 <= i < rs.len() && (#[trigger] rs[i]).first <= d <= rs[i].last,
    decreases rs.len(),
{
    if rs.len() > 0 {
        lemma_ranges_days(rs.drop_first());
        assert forall|d: int| #[trigger]
            ranges_days(rs).contains(d) implies exists|i: int|
            0 <= i < rs.len() && (#[trigger] rs[i]).first <= d <= rs[i].last by {
            if range_days(rs[0]).contains(d) {
                assert(rs[0].first <= d <= rs[0].last);
            } else {
                assert(ranges_days(rs.drop_first()).contains(d));
                let i = choose|i: int|
                    0 <= i < rs.drop_first().len() && (#[trigger] rs.drop_first()[i]).first <= d
                        <= rs.drop_first()[i].last;
                assert(rs.drop_first()[i] == rs[i + 1]);
                assert(rs[i + 1].first <= d <= rs[i + 1].last);
            }
        }
        assert forall|d: int|
            (exists|i: int| 0 <= i < rs.len() && (#[trigger] rs[i]).first <= d <= rs[i].last)
            implies #[trigger] ranges_days(rs).contains(d) by {
            let i = choose|i: int|
                0 <= i < rs.len() && (#[trigger] rs[i]).first <= d <= rs[i].last;
            if i == 0 {
                assert(range_days(rs[0]).contains(d));
            } else {
                assert(rs.drop_first()[i - 1] == rs[i]);
                assert(rs.drop_first()[i - 1].first <= d <= rs.drop_first()[i - 1].last);
                assert(ranges_days(rs.drop_first()).contains(d));
            }
        }
    }
}

/// Days covered after appending one range: the old days plus the new range's.
pub proof fn lemma_ranges_days_push(rs: Seq<DayRange>, r: DayRange)
    ensures
        ranges_days(rs.push(r)) == ranges_days(rs).union(range_days(r)),
    decreases rs.len(),
{
    if rs.len() == 0 {
        assert(rs.push(r).drop_first() =~= Seq::<DayRange>::empty());
        assert(rs.push(r)[0] == r);
        assert(ranges_days(Seq::<DayRange>::empty()) =~= Set::<int>::empty());
        assert(ranges_days(rs.push(r)) == range_days(r).union(ranges_days(
            Seq::<DayRange>::empty(),
        )));
        assert(ranges_days(rs.push(r)) =~= ranges_days(rs).union(range_days(r)));
    } else {
        lemma_ranges_days_push(rs.drop_first(), r);
        assert(rs.push(r).drop_first() =~= rs.drop_first().push(r));
        assert(rs.push(r)[0] == rs[0]);
        assert(ranges_days(rs.push(r)) == range_days(rs[0]).union(ranges_days(
            rs.drop_first().push(r),
        )));
        assert(ranges_days(rs) == range_days(rs[0]).union(ranges_days(rs.drop_first())));
        assert(ranges_days(rs.push(r)) =~= ranges_days(rs).union(range_days(r)));
    }
}

/// Processing a split history: the first part runs from the initial days,
/// the second from the days the first part left behind.
pub proof fn lemma_process_append(
    h1: Seq<Sighting>,
    h2: Seq<Sighting>,
    new: Sighting,
    plate: Seq<u8>,
    road: u16,
    limit: u16,
    days0: Set<int>,
)
    ensures
        ({
            let f1 = spec_process(h1, new, plate, road, limit, days0);
            let f2 = spec_process(h2, new, plate, road, limit, f1.days);
            let g = spec_process(h1 + h2, new, plate, road, limit, days0);
            g.tickets == f1.tickets + f2.tickets && g.days == f2.days
        }),
    decreases h1.len(),
{
    let f1 = spec_process(h1, new, plate, road, limit, days0);
    let f2 = spec_process(h2, new, plate, road, limit, f1.days);
    let g = spec_process(h1 + h2, new, plate, road, limit, days0);
    if h1.len() == 0 {
        assert(h1 + h2 =~= h2);
        assert(f1.tickets + f2.tickets =~= f2.tickets);
    } else {
        let s = h1[0];
        assert((h1 + h2)[0] == s);
        assert((h1 + h2).drop_first() =~= h1.drop_first() + h2);
        let d1 = spec_day(spec_earlier(s, new).timestamp);
        let d2 = spec_day(spec_later(s, new).timestamp);
        if spec_over_limit(s, new, limit) && days_free(days0, d1, d2) {
            let days1 = days0.union(Set::new(|d: int| d1 <= d <= d2));
            lemma_process_append(h1.drop_first(), h2, new, plate, road, limit, days1);
            let r1 = spec_process(h1.drop_first(), new, plate, road, limit, days1);
            assert(f1.tickets == seq![spec_ticket(plate, road, s, new)] + r1.tickets);
            assert(g.tickets =~= f1.tickets + f2.tickets);
        } else {
            lemma_process_append(h1.drop_first(), h2, new, plate, road, limit, days0);
        }
    }
}

/// One step of the pair-by-pair fold, at position `i` of the history.
pub proof fn lemma_process_snoc(
    h: Seq<Sighting>,
    i: int,
    new: Sighting,
    plate: Seq<u8>,
    road: u16,
    limit: u16,
    days0: Set<int>,
)
    requires
        0 <= i < h.len(),
    ensures
        ({
            let f = spec_process(h.take(i), new, plate, road, limit, days0);
            let g = spec_process(h.take(i + 1), new, plate, road, limit, days0);
            let s = h[i];
            let d1 = spec_day(spec_earlier(s, new).timestamp);
            let d2 = spec_day(spec_later(s, new).timestamp);
            if spec_over_limit(s, new, limit) && days_free(f.days, d1, d2) {
                g.tickets == f.tickets.push(spec_ticket(plate, road, s, new)) && g.days
                    == f.days.union(Set::new(|d: int| d1 <= d <= d2))
            } else {
                g.tickets == f.tickets && g.days == f.days
            }
        }),
{
    let s = h[i];
    assert(h.take(i + 1) =~= h.take(i) + seq![s]);
    lemma_process_append(h.take(i), seq![s], new, plate, road, limit, days0);
    let f = spec_process(h.take(i), new, plate, road, limit, days0);
    let single = spec_process(seq![s], new, plate, road, limit, f.days);
    assert(seq![s].drop_first() =~= Seq::<Sighting>::empty());
    assert(seq![s][0] == s);
    let d1 = spec_day(spec_earlier(s, new).timestamp);
    let d2 = spec_day(spec_later(s, new).timestamp);
    if spec_over_limit(s, new, limit) && days_free(f.days, d1, d2) {
        let days1 = f.days.union(Set::new(|d: int| d1 <= d <= d2));
        let rest = spec_process(Seq::<Sighting>::empty(), new, plate, road, limit, days1);
        assert(rest.tickets =~= Seq::<TicketV>::empty());
        assert(single.tickets == seq![spec_ticket(plate, road, s, new)] + rest.tickets);
        assert(single.tickets =~= seq![spec_ticket(plate, road, s, new)]);
        assert(single.days == days1);
        assert(f.tickets + single.tickets =~= f.tickets.push(spec_ticket(plate, road, s, new)));
    } else {
        assert(single == spec_process(Seq::<Sighting>::empty(), new, plate, road, limit, f.days));
        assert(single.tickets =~= Seq::<TicketV>::empty());
        assert(f.tickets + single.tickets =~= f.tickets);
    }
}

// ---------------------------------------------------------------------------
// Small executable helpers
// ---------------------------------------------------------------------------

/// Byte-string equality.
pub fn bytes_eq(a: &Vec<u8>, b: &Vec<u8>) -> (r: bool)
    ensures
        r == (a@ == b@),
{
    if a.len() != b.len() {
        return false;
    }
    let mut i: usize = 0;
    while i < a.len()
        invariant
            a@.len() == b@.len(),
            i <= a@.len(),
            forall|j: int| 0 <= j < i ==> a@[j] == b@[j],
        decreases a@.len() - i,
    {
        if a[i] != b[i] {
            return false;
        }
        i += 1;
    }
    proof {
        assert(a@ =~= b@);
    }
    true
}

/// Whether no already-ticketed range covers any day in `first ..= last`.
fn range_free(ranges: &Vec<DayRange>, first: u32, last: u32) -> (r: bool)
    requires
        first <= last,
        forall|j: int|
            0 <= j < ranges@.len() ==> (#[trigger] ranges@[j]).first <= ranges@[j].last,
    ensures
        r == days_free(ranges_days(ranges@), first as int, last as int),
{
    proof {
        lemma_ranges_days(ranges@);
    }
    let mut i: usize = 0;
    while i < ranges.len()
        invariant
            i <= ranges@.len(),
            first <= last,
            forall|j: int|
                0 <= j < ranges@.len() ==> (#[trigger] ranges@[j]).first <= ranges@[j].last,
            forall|j: int|
                0 <= j < i ==> ((#[trigger] ranges@[j]).last < first || last < ranges@[j].first),
        decreases ranges@.len() - i,
    {
        let rg = ranges[i];
        if !(rg.last < first || last < rg.first) {
            proof {
                let d = if rg.first >= first {
                    rg.first as int
                } else {
                    first as int
                };
                assert(rg.first <= d <= rg.last);
                assert(first <= d <= last);
                lemma_ranges_days(ranges@);
                assert((#[trigger] ranges@[i as int]).first <= d <= ranges@[i as int].last);
                assert(ranges_days(ranges@).contains(d));
            }
            return false;
        }
        i += 1;
    }
    proof {
        assert forall|d: int| first <= d <= last implies !ranges_days(ranges@).contains(d) by {
            if ranges_days(ranges@).contains(d) {
                let j = choose|j: int|
                    0 <= j < ranges@.len() && (#[trigger] ranges@[j]).first <= d
                        <= ranges@[j].last;
                assert(ranges@[j].last < first || last < ranges@[j].first);
            }
        }
    }
    true
}

/// Mapping a ticket list commutes with push.
pub proof fn lemma_tickets_view_push(ts: Seq<Ticket>, t: Ticket)
    ensures
        tickets_view(ts.push(t)) == tickets_view(ts).push(t@),
{
    assert(tickets_view(ts.push(t)) =~= tickets_view(ts).push(t@));
}

/// Mapping a ticket list commutes with concatenation.
pub proof fn lemma_tickets_view_concat(a: Seq<Ticket>, b: Seq<Ticket>)
    ensures
        tickets_view(a + b) == tickets_view(a) + tickets_view(b),
{
    assert(tickets_view(a + b) =~= tickets_view(a) + tickets_view(b));
}

/// The position characterized by the insertion loop is the insertion point.
pub proof fn lemma_insert_pos_first(s: Seq<Sighting>, x: Sighting, i: int)
    requires
        0 <= i <= s.len(),
        forall|j: int| 0 <= j < i ==> (#[trigger] s[j]).timestamp <= x.timestamp,
        i == s.len() || s[i].timestamp > x.timestamp,
    ensures
        insert_pos(s, x) == i,
    decreases s.len(),
{
    if s.len() > 0 {
        if i == 0 {
            assert(x.timestamp < s[0].timestamp);
        } else {
            assert(s[0].timestamp <= x.timestamp);
            assert(forall|j: int|
                0 <= j < i - 1 ==> (#[trigger] s.drop_first()[j]).timestamp == s[j
                    + 1].timestamp);
            assert(i - 1 == s.drop_first().len() || s.drop_first()[i - 1].timestamp
                > x.timestamp);
            lemma_insert_pos_first(s.drop_first(), x, i - 1);
        }
    }
}

impl PlateRecord {
    /// Records one new sighting for this plate: evaluates it against every
    /// sighting already in the history, in history order; each pair strictly
    /// over the limit whose day range is still wholly free yields a ticket
    /// and claims its days; finally the sighting joins the time-ordered
    /// history.
    fn apply(&mut self, mile: u16, timestamp: u32, road: u16, limit: u16) -> (tickets: Vec<Ticket>)
        requires
            old(self).wf(),
        ensures
            final(self).wf(),
            final(self).plate@ == old(self).plate@,
            ({
                let s = Sighting { mile: mile, timestamp: timestamp };
                let fold = spec_process(
                    old(self).sightings@,
                    s,
                    old(self).plate@,
                    road,
                    limit,
                    ranges_days(old(self).ticketed@),
                );
                &&& final(self).sightings@ == spec_insert(old(self).sightings@, s)
                &&& ranges_days(final(self).ticketed@) == fold.days
                &&& tickets_view(tickets@) == fold.tickets
            }),
    {
        let ghost orig = *self;
        let s = Sighting { mile, timestamp };
        let mut tickets: Vec<Ticket> = Vec::new();
        let n = self.sightings.len();
        let mut i: usize = 0;
        proof {
            assert(orig.sightings@.take(0) =~= Seq::<Sighting>::empty());
            assert(tickets_view(tickets@) =~= Seq::<TicketV>::empty());
        }
        while i < n
            invariant
                i <= n,
                n == self.sightings@.len(),
                self.sightings@ == orig.sightings@,
                self.plate@ == orig.plate@,
                orig.wf(),
                self.wf(),
                s == (Sighting { mile: mile, timestamp: timestamp }),
                tickets_view(tickets@) == spec_process(
                    orig.sightings@.take(i as int),
                    s,
                    orig.plate@,
                    road,
                    limit,
                    ranges_days(orig.ticketed@),
                ).tickets,
                ranges_days(self.ticketed@) == spec_process(
                    orig.sightings@.take(i as int),
                    s,
                    orig.plate@,
                    road,
                    limit,
                    ranges_days(orig.ticketed@),
                ).days,
            decreases n - i,
        {
            let old_sight = self.sightings[i];
            let verdict = evaluate(&self.plate, road, old_sight, s, limit);
            proof {
                lemma_process_snoc(
                    orig.sightings@,
                    i as int,
                    s,
                    orig.plate@,
                    road,
                    limit,
                    ranges_days(orig.ticketed@),
                );
            }
            match verdict {
                Some(t) => {
                    let e_ts = if old_sight.timestamp <= timestamp {
                        old_sight.timestamp
                    } else {
                        timestamp
                    };
                    let l_ts = if old_sight.timestamp <= timestamp {
                        timestamp
                    } else {
                        old_sight.timestamp
                    };
                    let d1 = e_ts / SECONDS_PER_DAY;
                    let d2 = l_ts / SECONDS_PER_DAY;
                    proof {
                        lemma_day_ordered(old_sight, s);
                        assert(d1 as int == spec_day(spec_earlier(old_sight, s).timestamp));
                        assert(d2 as int == spec_day(spec_later(old_sight, s).timestamp));
                        assert(d1 <= d2);
                    }
                    if range_free(&self.ticketed, d1, d2) {
                        let ghost tick_prev = tickets@;
                        let ghost days_prev = self.ticketed@;
                        self.ticketed.push(DayRange { first: d1, last: d2 });
                        tickets.push(t);
                        proof {
                            lemma_tickets_view_push(tick_prev, t);
                            lemma_ranges_days_push(days_prev, DayRange { first: d1, last: d2 });
                            assert(range_days(DayRange { first: d1, last: d2 }) =~= Set::new(
                                |d: int| d1 as int <= d <= d2 as int,
                            ));
                            assert(ranges_days(self.ticketed@) =~= spec_process(
                                orig.sightings@.take(i as int + 1),
                                s,
                                orig.plate@,
                                road,
                                limit,
                                ranges_days(orig.ticketed@),
                            ).days);
                        }
                    }
                },
                None => {},
            }
            i += 1;
        }
        proof {
            assert(orig.sightings@.take(n as int) =~= orig.sightings@);
        }
        let mut pos: usize = 0;
        while pos < self.sightings.len() && self.sightings[pos].timestamp <= timestamp
            invariant
                pos <= self.sightings@.len(),
                self.sightings@ == orig.sightings@,
                forall|j: int|
                    0 <= j < pos ==> (#[trigger] self.sightings@[j]).timestamp <= timestamp,
            decreases self.sightings@.len() - pos,
        {
            pos += 1;
        }
        proof {
            lemma_insert_pos_first(orig.sightings@, s, pos as int);
        }
        self.sightings.insert(pos, s);
        proof {
            orig.sightings@.insert_ensures(pos as int, s);
            let t = self.sightings@;
            let p = pos as int;
            assert forall|i2: int, j2: int|
                0 <= i2 <= j2 < t.len() implies t[i2].timestamp <= t[j2].timestamp by {
                if i2 < p {
                    assert(t[i2] == orig.sightings@[i2]);
                } else if i2 == p {
                    assert(t[i2] == s);
                } else {
                    assert(t[i2] == orig.sightings@[i2 - 1]);
                }
                if j2 < p {
                    assert(t[j2] == orig.sightings@[j2]);
                } else if j2 == p {
                    assert(t[j2] == s);
                } else {
                    assert(t[j2] == orig.sightings@[j2 - 1]);
                }
                if i2 < p && j2 == p {
                    assert(orig.sightings@[i2].timestamp <= timestamp);
                } else if i2 == p && j2 > p {
                    assert(p < orig.sightings@.len());
                    assert(orig.sightings@[p].timestamp > timestamp);
                    assert(orig.sightings@[p].timestamp <= orig.sightings@[j2 - 1].timestamp);
                }
            }
            assert(sorted(t));
        }
        tickets
    }
}

/// Finds the record for `plate`, returning its index, or the record count
/// when there is none.
fn find_plate(plates: &Vec<PlateRecord>, plate: &Vec<u8>) -> (r: usize)
    ensures
        r <= plates@.len(),
        r < plates@.len() ==> plate_idx(plates@, plate@) == r as int,
        r == plates@.len() ==> plate_idx(plates@, plate@) == -1,
{
    let n = plates.len();
    let mut i: usize = 0;
    while i < n
        invariant
            i <= n,
            n == plates@.len(),
            forall|j: int| 0 <= j < i ==> (#[trigger] plates@[j]).plate@ != plate@,
        decreases n - i,
    {
        if bytes_eq(&plates[i].plate, plate) {
            proof {
                lemma_plate_idx_first(plates@, plate@, i as int);
            }
            return i;
        }
        i += 1;
    }
    proof {
        lemma_plate_idx_first(plates@, plate@, n as int);
    }
    n
}

impl RoadState {
    /// Records one sighting on this road and routes the resulting tickets:
    /// straight out when a dispatcher is bound, into the pending queue
    /// otherwise.  The limit a camera last reported wins.
    fn record(&mut self, plate: &Vec<u8>, mile: u16, timestamp: u32, limit: u16) -> (delivered:
        Vec<Ticket>)
        requires
            old(self).wf(),
        ensures
            final(self).wf(),
            final(self).road == old(self).road,
            final(self).limit.speed_limit == limit,
            final(self).dispatchers@ == old(self).dispatchers@,
            ({
                let s = Sighting { mile: mile, timestamp: timestamp };
                let fold = spec_process(
                    plate_sightings(old(self).plates@, plate@),
                    s,
                    plate@,
                    old(self).road,
                    limit,
                    plate_days(old(self).plates@, plate@),
                );
                &&& plate_sightings(final(self).plates@, plate@) == spec_insert(
                    plate_sightings(old(self).plates@, plate@),
                    s,
                )
                &&& plate_days(final(self).plates@, plate@) == fold.days
                &&& (forall|q: Seq<u8>|
                    q != plate@ ==> #[trigger] plate_sightings(final(self).plates@, q)
                        == plate_sightings(old(self).plates@, q))
                &&& (forall|q: Seq<u8>|
                    q != plate@ ==> #[trigger] plate_days(final(self).plates@, q) == plate_days(
                        old(self).plates@,
                        q,
                    ))
                &&& (old(self).dispatchers@.len() > 0 ==> tickets_view(delivered@) == fold.tickets
                    && final(self).pending@ == old(self).pending@)
                &&& (old(self).dispatchers@.len() == 0 ==> delivered@.len() == 0 && tickets_view(
                    final(self).pending@,
                ) == tickets_view(old(self).pending@) + fold.tickets)
            }),
    {
        let road = self.road;
        self.limit = Road { speed_limit: limit };
        let ghost plates0 = self.plates@;
        let n = self.plates.len();
        let pi = find_plate(&self.plates, plate);
        if pi == n {
            let fresh = PlateRecord {
                plate: clone_bytes(plate),
                sightings: Vec::new(),
                ticketed: Vec::new(),
            };
            proof {
                lemma_plate_idx_push(self.plates@, fresh, plate@);
            }
            self.plates.push(fresh);
        }
        let ghost mid_plates = self.plates@;
        proof {
            assert(plate_idx(mid_plates, plate@) == pi as int);
            assert(plate_sightings(mid_plates, plate@) == plate_sightings(plates0, plate@));
            assert(plate_days(mid_plates, plate@) == plate_days(plates0, plate@));
        }
        let mut pr = PlateRecord { plate: Vec::new(), sightings: Vec::new(), ticketed: Vec::new() };
        self.plates.set_and_swap(pi, &mut pr);
        let ghost pr0 = pr;
        proof {
            lemma_plate_idx_bounds(mid_plates, plate@);
            assert(pr0 == mid_plates[pi as int]);
            assert(pr0.plate@ == plate@);
            assert(ranges_days(Seq::<DayRange>::empty()) == Set::<int>::empty());
            assert(pr0.sightings@ == plate_sightings(plates0, plate@));
            assert(ranges_days(pr0.ticketed@) == plate_days(plates0, plate@));
        }
        let tickets = pr.apply(mile, timestamp, road, limit);
        let ghost prv = pr;
        self.plates.set(pi, pr);
        proof {
            assert(pr0 == mid_plates[pi as int]);
            assert(self.plates@ =~= mid_plates.update(pi as int, prv));
            lemma_plate_idx_update(mid_plates, pi as int, prv, plate@);
            assert(plate_idx(self.plates@, plate@) == pi as int);
            assert forall|q: Seq<u8>| q != plate@ implies #[trigger] plate_sightings(
                self.plates@,
                q,
            ) == plate_sightings(plates0, q) by {
                lemma_plate_idx_update(mid_plates, pi as int, prv, q);
                lemma_plate_idx_bounds(mid_plates, q);
                lemma_plate_idx_bounds(mid_plates, plate@);
                lemma_plate_idx_bounds(plates0, q);
                if pi >= plates0.len() {
                    let fresh = mid_plates[pi as int];
                    lemma_plate_idx_push(plates0, fresh, q);
                }
            }
            assert forall|q: Seq<u8>| q != plate@ implies #[trigger] plate_days(self.plates@, q)
                == plate_days(plates0, q) by {
                lemma_plate_idx_update(mid_plates, pi as int, prv, q);
                lemma_plate_idx_bounds(mid_plates, q);
                lemma_plate_idx_bounds(mid_plates, plate@);
                lemma_plate_idx_bounds(plates0, q);
                if pi >= plates0.len() {
                    let fresh = mid_plates[pi as int];
                    lemma_plate_idx_push(plates0, fresh, q);
                }
            }
        }
        if self.dispatchers.len() > 0 {
            tickets
        } else {
            let ghost pend0 = self.pending@;
            let ghost tv = tickets@;
            let mut tickets = tickets;
            self.pending.append(&mut tickets);
            proof {
                lemma_tickets_view_concat(pend0, tv);
            }
            Vec::new()
        }
    }
}

/// A dispatcher list with every binding of `c` removed, order kept.
pub open spec fn spec_without(s: Seq<u64>, c: u64) -> Seq<u64>
    decreases s.len(),
{
    if s.len() == 0 {
        Seq::empty()
    } else if s[0] == c {
        spec_without(s.drop_first(), c)
    } else {
        seq![s[0]] + spec_without(s.drop_first(), c)
    }
}

/// One step of removing a connection, at position `i`.
pub proof fn lemma_without_snoc(s: Seq<u64>, c: u64, i: int)
    requires
        0 <= i < s.len(),
    ensures
        spec_without(s.take(i + 1), c) == if s[i] == c {
            spec_without(s.take(i), c)
        } else {
            spec_without(s.take(i), c).push(s[i])
        },
    decreases i,
{
    if i == 0 {
        assert(s.take(1) =~= seq![s[0]]);
        assert(s.take(0) =~= Seq::<u64>::empty());
        assert(s.take(1).drop_first() =~= Seq::<u64>::empty());
        if s[0] == c {
        } else {
            assert(spec_without(s.take(1), c) =~= spec_without(s.take(0), c).push(s[0]));
        }
    } else {
        lemma_without_snoc(s.drop_first(), c, i - 1);
        assert(s.take(i + 1).drop_first() =~= s.drop_first().take(i));
        assert(s.take(i).drop_first() =~= s.drop_first().take(i - 1));
        assert(s.take(i + 1)[0] == s[0]);
        assert(s.take(i)[0] == s[0]);
        assert(s.drop_first()[i - 1] == s[i]);
        if s[0] == c {
        } else {
            if s[i] == c {
            } else {
                assert(seq![s[0]] + spec_without(s.drop_first().take(i - 1), c).push(s[i]) =~= (
                seq![s[0]] + spec_without(s.drop_first().take(i - 1), c)).push(s[i]));
            }
        }
    }
}

/// The dispatcher list without `conn`.
fn without_conn(v: &Vec<u64>, conn: u64) -> (r: Vec<u64>)
    ensures
        r@ == spec_without(v@, conn),
{
    let mut r: Vec<u64> = Vec::new();
    let mut i: usize = 0;
    proof {
        assert(v@.take(0) =~= Seq::<u64>::empty());
    }
    while i < v.len()
        invariant
            i <= v@.len(),
            r@ == spec_without(v@.take(i as int), conn),
        decreases v@.len() - i,
    {
        proof {
            lemma_without_snoc(v@, conn, i as int);
        }
        if v[i] != conn {
            r.push(v[i]);
        }
        i += 1;
    }
    proof {
        assert(v@.take(v@.len() as int) =~= v@);
    }
    r
}

/// Whether `conn` is among the bound dispatchers.
fn contains_conn(v: &Vec<u64>, conn: u64) -> (r: bool)
    ensures
        r == v@.contains(conn),
{
    let mut i: usize = 0;
    while i < v.len()
        invariant
            i <= v@.len(),
            forall|j: int| 0 <= j < i ==> v@[j] != conn,
        decreases v@.len() - i,
    {
        if v[i] == conn {
            return true;
        }
        i += 1;
    }
    false
}

/// Finds the state for `road`, returning its index, or the road count when
/// there is none.
fn find_road(roads: &Vec<RoadState>, road: u16) -> (r: usize)
    ensures
        r <= roads@.len(),
        r < roads@.len() ==> road_idx(roads@, road) == r as int,
        r == roads@.len() ==> road_idx(roads@, road) == -1,
{
    let n = roads.len();
    let mut i: usize = 0;
    while i < n
        invariant
            i <= n,
            n == roads@.len(),
            forall|j: int| 0 <= j < i ==> (#[trigger] roads@[j]).road != road,
        decreases n - i,
    {
        if roads[i].road == road {
            proof {
                lemma_road_idx_first(roads@, road, i as int);
            }
            return i;
        }
        i += 1;
    }
    proof {
        lemma_road_idx_first(roads@, road, n as int);
    }
    n
}

/// Two road tables whose entries name the same roads resolve every lookup
/// alike.
pub proof fn lemma_road_idx_same_roads(a: Seq<RoadState>, b: Seq<RoadState>, road: u16)
    requires
        a.len() == b.len(),
        forall|k: int| 0 <= k < a.len() ==> (#[trigger] a[k]).road == b[k].road,
    ensures
        road_idx(a, road) == road_idx(b, road),
    decreases a.len(),
{
    if a.len() > 0 {
        assert(forall|k: int|
            0 <= k < a.drop_first().len() ==> (#[trigger] a.drop_first()[k]).road == a[k
                + 1].road);
        assert(forall|k: int|
            0 <= k < b.drop_first().len() ==> (#[trigger] b.drop_first()[k]).road == b[k
                + 1].road);
        lemma_road_idx_same_roads(a.drop_first(), b.drop_first(), road);
    }
}

// ---------------------------------------------------------------------------
// What each operation promises
// ---------------------------------------------------------------------------

/// What recording one sighting promises: history extended in time order,
/// tickets exactly per the pair-by-pair fold, delivered at once when a
/// dispatcher is bound and queued otherwise, everything else untouched.
pub open spec fn record_post(
    pre: Registry,
    post: Registry,
    road: u16,
    plate: Seq<u8>,
    mile: u16,
    timestamp: u32,
    limit: u16,
    delivered: Seq<TicketV>,
) -> bool {
    let s = Sighting { mile: mile, timestamp: timestamp };
    let fold = spec_process(
        pre.sightings_of(road, plate),
        s,
        plate,
        road,
        limit,
        pre.ticketed_of(road, plate),
    );
    &&& post.has_road(road)
    &&& post.limit_of(road) == limit
    &&& post.sightings_of(road, plate) == spec_insert(pre.sightings_of(road, plate), s)
    &&& post.ticketed_of(road, plate) == fold.days
    &&& post.dispatchers_of(road) == pre.dispatchers_of(road)
    &&& (pre.dispatchers_of(road).len() > 0 ==> delivered == fold.tickets && post.pending_of(road)
        == pre.pending_of(road))
    &&& (pre.dispatchers_of(road).len() == 0 ==> delivered == Seq::<TicketV>::empty()
        && post.pending_of(road) == pre.pending_of(road) + fold.tickets)
    &&& (forall|q: Seq<u8>|
        q != plate ==> #[trigger] post.sightings_of(road, q) == pre.sightings_of(road, q))
    &&& (forall|q: Seq<u8>|
        q != plate ==> #[trigger] post.ticketed_of(road, q) == pre.ticketed_of(road, q))
    &&& (forall|r2: u16| r2 != road ==> #[trigger] post.road_untouched(pre, r2))
}

/// What binding a dispatcher to one road promises: the queue handed over
/// oldest-first and emptied, the connection bound, everything else untouched.
pub open spec fn bind_post(
    pre: Registry,
    post: Registry,
    road: u16,
    conn: u64,
    drained: Seq<TicketV>,
) -> bool {
    &&& post.has_road(road)
    &&& drained == pre.pending_of(road)
    &&& post.pending_of(road) == Seq::<TicketV>::empty()
    &&& post.dispatchers_of(road) == if pre.dispatchers_of(road).contains(conn) {
        pre.dispatchers_of(road)
    } else {
        pre.dispatchers_of(road).push(conn)
    }
    &&& (pre.has_road(road) ==> post.limit_of(road) == pre.limit_of(road))
    &&& (forall|q: Seq<u8>| #[trigger] post.sightings_of(road, q) == pre.sightings_of(road, q))
    &&& (forall|q: Seq<u8>| #[trigger] post.ticketed_of(road, q) == pre.ticketed_of(road, q))
    &&& (forall|r2: u16| r2 != road ==> #[trigger] post.road_untouched(pre, r2))
}

impl Registry {
    /// A registry with no road observed yet.
    pub fn new() -> (r: Registry)
        ensures
            r.wf(),
            forall|road: u16| !(#[trigger] r.has_road(road)),
    {
        let r = Registry { roads: Vec::new() };
        proof {
            assert forall|road: u16| !(#[trigger] r.has_road(road)) by {
                assert(road_idx(r.roads@, road) == -1);
            }
        }
        r
    }

    /// Finds the state for `road`, creating an empty one when the road has
    /// not been observed before.
    fn ensure_road(&mut self, road: u16) -> (ri: usize)
        requires
            old(self).wf(),
        ensures
            final(self).wf(),
            ri < final(self).roads@.len(),
            road_idx(final(self).roads@, road) == ri as int,
            final(self).roads@[ri as int].road == road,
            final(self).has_road(road),
            final(self).dispatchers_of(road) == old(self).dispatchers_of(road),
            final(self).pending_of(road) == old(self).pending_of(road),
            old(self).has_road(road) ==> final(self).limit_of(road) == old(self).limit_of(road),
            forall|q: Seq<u8>| #[trigger]
                final(self).sightings_of(road, q) == old(self).sightings_of(road, q),
            forall|q: Seq<u8>| #[trigger]
                final(self).ticketed_of(road, q) == old(self).ticketed_of(road, q),
            forall|r2: u16| r2 != road ==> #[trigger] final(self).road_untouched(*old(self), r2),
    {
        let n = self.roads.len();
        let ri = find_road(&self.roads, road);
        if ri < n {
            proof {
                lemma_road_idx_bounds(self.roads@, road);
                assert forall|r2: u16| r2 != road implies #[trigger] self.road_untouched(
                    *old(self),
                    r2,
                ) by {}
            }
            return ri;
        }
        let ghost roads0 = self.roads@;
        let fresh = RoadState {
            road,
            limit: Road { speed_limit: 0 },
            plates: Vec::new(),
            dispatchers: Vec::new(),
            pending: Vec::new(),
        };
        proof {
            lemma_road_idx_push(roads0, fresh, road);
        }
        self.roads.push(fresh);
        proof {
            assert(road_idx(self.roads@, road) == roads0.len() as int);
            assert(ranges_days(Seq::<DayRange>::empty()) == Set::<int>::empty());
            assert forall|q: Seq<u8>| #[trigger]
                self.sightings_of(road, q) == old(self).sightings_of(road, q) by {
                assert(plate_idx(Seq::<PlateRecord>::empty(), q) == -1);
            }
            assert forall|q: Seq<u8>| #[trigger]
                self.ticketed_of(road, q) == old(self).ticketed_of(road, q) by {
                assert(plate_idx(Seq::<PlateRecord>::empty(), q) == -1);
            }
            assert forall|r2: u16| r2 != road implies #[trigger] self.road_untouched(
                *old(self),
                r2,
            ) by {
                lemma_road_idx_push(roads0, fresh, r2);
                lemma_road_idx_bounds(roads0, r2);
                assert forall|q: Seq<u8>| #[trigger] self.sightings_of(r2, q) == old(
                    self,
                ).sightings_of(r2, q) by {}
                assert forall|q: Seq<u8>| #[trigger] self.ticketed_of(r2, q) == old(
                    self,
                ).ticketed_of(r2, q) by {}
            }
        }
        ri
    }

    /// Records a sighting of `plate` at `mile` on `road` at `timestamp`,
    /// reported by a camera enforcing `limit`, and returns the tickets to
    /// deliver now.  When no dispatcher is bound the new tickets are queued
    /// instead and the result is empty.
    pub fn record_sighting(
        &mut self,
        road: u16,
        plate: &Vec<u8>,
        mile: u16,
        timestamp: u32,
        limit: u16,
    ) -> (delivered: Vec<Ticket>)
        requires
            old(self).wf(),
        ensures
            final(self).wf(),
            record_post(
                *old(self),
                *final(self),
                road,
                plate@,
                mile,
                timestamp,
                limit,
                tickets_view(delivered@),
            ),
    {
        let ri = self.ensure_road(road);
        let ghost mid = *self;
        let mut st = RoadState {
            road: 0,
            limit: Road { speed_limit: 0 },
            plates: Vec::new(),
            dispatchers: Vec::new(),
            pending: Vec::new(),
        };
        self.roads.set_and_swap(ri, &mut st);
        let ghost st0 = st;
        proof {
            assert(st0 == mid.roads@[ri as int]);
            assert(st0 == mid.road_state(road));
            assert(st0.wf());
        }
        let delivered = st.record(plate, mile, timestamp, limit);
        let ghost stv = st;
        self.roads.set(ri, st);
        proof {
            assert(self.roads@ =~= mid.roads@.update(ri as int, stv));
            lemma_road_idx_update(mid.roads@, ri as int, stv, road);
            assert(road_idx(self.roads@, road) == ri as int);
            assert(self.road_state(road) == stv);
            assert(st0.road == road);
            assert(mid.has_road(road));
            assert(mid.sightings_of(road, plate@) == plate_sightings(st0.plates@, plate@));
            assert(mid.sightings_of(road, plate@) == old(self).sightings_of(road, plate@));
            assert(mid.ticketed_of(road, plate@) == plate_days(st0.plates@, plate@));
            assert(mid.ticketed_of(road, plate@) == old(self).ticketed_of(road, plate@));
            assert(mid.dispatchers_of(road) == st0.dispatchers@);
            assert(mid.dispatchers_of(road) == old(self).dispatchers_of(road));
            assert(mid.pending_of(road) == tickets_view(st0.pending@));
            assert(mid.pending_of(road) == old(self).pending_of(road));
            assert(self.sightings_of(road, plate@) == plate_sightings(stv.plates@, plate@));
            assert(self.ticketed_of(road, plate@) == plate_days(stv.plates@, plate@));
            assert(self.dispatchers_of(road) == stv.dispatchers@);
            assert(self.pending_of(road) == tickets_view(stv.pending@));
            assert(self.limit_of(road) == limit);
            assert forall|q: Seq<u8>|
                q != plate@ implies #[trigger] self.sightings_of(road, q) == old(
                self,
            ).sightings_of(road, q) by {
                assert(plate_sightings(stv.plates@, q) == plate_sightings(st0.plates@, q));
                assert(mid.sightings_of(road, q) == plate_sightings(st0.plates@, q));
                assert(mid.sightings_of(road, q) == old(self).sightings_of(road, q));
            }
            assert forall|q: Seq<u8>|
                q != plate@ implies #[trigger] self.ticketed_of(road, q) == old(self).ticketed_of(
                road,
                q,
            ) by {
                assert(plate_days(stv.plates@, q) == plate_days(st0.plates@, q));
                assert(mid.ticketed_of(road, q) == plate_days(st0.plates@, q));
                assert(mid.ticketed_of(road, q) == old(self).ticketed_of(road, q));
            }
            assert forall|r2: u16| r2 != road implies #[trigger] self.road_untouched(
                *old(self),
                r2,
            ) by {
                lemma_road_idx_update(mid.roads@, ri as int, stv, r2);
                lemma_road_idx_bounds(mid.roads@, r2);
                assert(mid.road_untouched(*old(self), r2));
                assert(self.has_road(r2) == mid.has_road(r2));
                if mid.has_road(r2) {
                    assert(self.road_state(r2) == mid.road_state(r2));
                }
                assert forall|q: Seq<u8>| #[trigger] self.sightings_of(r2, q) == old(
                    self,
                ).sightings_of(r2, q) by {
                    assert(mid.sightings_of(r2, q) == old(self).sightings_of(r2, q));
                }
                assert forall|q: Seq<u8>| #[trigger] self.ticketed_of(r2, q) == old(
                    self,
                ).ticketed_of(r2, q) by {
                    assert(mid.ticketed_of(r2, q) == old(self).ticketed_of(r2, q));
                }
            }
            assert(tickets_view(Seq::<Ticket>::empty()) =~= Seq::<TicketV>::empty());
            if st0.dispatchers@.len() == 0 {
                assert(delivered@ =~= Seq::<Ticket>::empty());
            }
        }
        delivered
    }

    /// Registers `conn` as a dispatcher for `road` and hands it every queued
    /// ticket, oldest first.
    pub fn bind_dispatcher(&mut self, road: u16, conn: u64) -> (drained: Vec<Ticket>)
        requires
            old(self).wf(),
        ensures
            final(self).wf(),
            bind_post(*old(self), *final(self), road, conn, tickets_view(drained@)),
    {
        let ri = self.ensure_road(road);
        let ghost mid = *self;
        let mut st = RoadState {
            road: 0,
            limit: Road { speed_limit: 0 },
            plates: Vec::new(),
            dispatchers: Vec::new(),
            pending: Vec::new(),
        };
        self.roads.set_and_swap(ri, &mut st);
        let ghost st0 = st;
        proof {
            assert(st0 == mid.roads@[ri as int]);
            assert(st0 == mid.road_state(road));
        }
        if !contains_conn(&st.dispatchers, conn) {
            st.dispatchers.push(conn);
        }
        let mut drained: Vec<Ticket> = Vec::new();
        drained.append(&mut st.pending);
        let ghost stv = st;
        self.roads.set(ri, st);
        proof {
            assert(drained@ =~= st0.pending@);
            assert(stv.pending@ =~= Seq::<Ticket>::empty());
            assert(tickets_view(Seq::<Ticket>::empty()) =~= Seq::<TicketV>::empty());
            assert(self.roads@ =~= mid.roads@.update(ri as int, stv));
            lemma_road_idx_update(mid.roads@, ri as int, stv, road);
            assert(road_idx(self.roads@, road) == ri as int);
            assert(self.road_state(road) == stv);
            assert(st0.road == road);
            assert(mid.has_road(road));
            assert(mid.dispatchers_of(road) == st0.dispatchers@);
            assert(mid.dispatchers_of(road) == old(self).dispatchers_of(road));
            assert(mid.pending_of(road) == tickets_view(st0.pending@));
            assert(mid.pending_of(road) == old(self).pending_of(road));
            assert(self.dispatchers_of(road) == stv.dispatchers@);
            assert(self.pending_of(road) == tickets_view(stv.pending@));
            if old(self).has_road(road) {
                assert(mid.limit_of(road) == old(self).limit_of(road));
                assert(mid.limit_of(road) == st0.limit.speed_limit);
                assert(stv.limit == st0.limit);
                assert(self.limit_of(road) == old(self).limit_of(road));
            }
            assert forall|q: Seq<u8>| #[trigger] self.sightings_of(road, q) == old(
                self,
            ).sightings_of(road, q) by {
                assert(mid.sightings_of(road, q) == plate_sightings(st0.plates@, q));
                assert(mid.sightings_of(road, q) == old(self).sightings_of(road, q));
            }
            assert forall|q: Seq<u8>| #[trigger] self.ticketed_of(road, q) == old(
                self,
            ).ticketed_of(road, q) by {
                assert(mid.ticketed_of(road, q) == plate_days(st0.plates@, q));
                assert(mid.ticketed_of(road, q) == old(self).ticketed_of(road, q));
            }
            assert forall|r2: u16| r2 != road implies #[trigger] self.road_untouched(
                *old(self),
                r2,
            ) by {
                lemma_road_idx_update(mid.roads@, ri as int, stv, r2);
                lemma_road_idx_bounds(mid.roads@, r2);
                assert(mid.road_untouched(*old(self), r2));
                assert(self.has_road(r2) == mid.has_road(r2));
                if mid.has_road(r2) {
                    assert(self.road_state(r2) == mid.road_state(r2));
                }
                assert forall|q: Seq<u8>| #[trigger] self.sightings_of(r2, q) == old(
                    self,
                ).sightings_of(r2, q) by {
                    assert(mid.sightings_of(r2, q) == old(self).sightings_of(r2, q));
                }
                assert forall|q: Seq<u8>| #[trigger] self.ticketed_of(r2, q) == old(
                    self,
                ).ticketed_of(r2, q) by {
                    assert(mid.ticketed_of(r2, q) == old(self).ticketed_of(r2, q));
                }
            }
        }
        drained
    }

    /// Puts an undeliverable ticket back at the end of its road's queue, so
    /// that a ticket is never dropped: it reaches the next dispatcher that
    /// binds to the road.
    pub fn requeue_ticket(&mut self, road: u16, ticket: Ticket)
        requires
            old(self).wf(),
        ensures
            final(self).wf(),
            final(self).has_road(road),
            final(self).pending_of(road) == old(self).pending_of(road).push(ticket@),
            final(self).dispatchers_of(road) == old(self).dispatchers_of(road),
            old(self).has_road(road) ==> final(self).limit_of(road) == old(self).limit_of(road),
            forall|q: Seq<u8>| #[trigger]
                final(self).sightings_of(road, q) == old(self).sightings_of(road, q),
            forall|q: Seq<u8>| #[trigger]
                final(self).ticketed_of(road, q) == old(self).ticketed_of(road, q),
            forall|r2: u16| r2 != road ==> #[trigger] final(self).road_untouched(*old(self), r2),
    {
        let ri = self.ensure_road(road);
        let ghost mid = *self;
        let mut st = RoadState {
            road: 0,
            limit: Road { speed_limit: 0 },
            plates: Vec::new(),
            dispatchers: Vec::new(),
            pending: Vec::new(),
        };
        self.roads.set_and_swap(ri, &mut st);
        let ghost st0 = st;
        proof {
            assert(st0 == mid.roads@[ri as int]);
            assert(st0 == mid.road_state(road));
        }
        st.pending.push(ticket);
        let ghost stv = st;
        self.roads.set(ri, st);
        proof {
            lemma_tickets_view_push(st0.pending@, ticket);
            assert(self.roads@ =~= mid.roads@.update(ri as int, stv));
            lemma_road_idx_update(mid.roads@, ri as int, stv, road);
            assert(road_idx(self.roads@, road) == ri as int);
            assert(self.road_state(road) == stv);
            assert(st0.road == road);
            assert(mid.has_road(road));
            assert(mid.dispatchers_of(road) == st0.dispatchers@);
            assert(mid.dispatchers_of(road) == old(self).dispatchers_of(road));
            assert(mid.pending_of(road) == tickets_view(st0.pending@));
            assert(mid.pending_of(road) == old(self).pending_of(road));
            assert(self.dispatchers_of(road) == stv.dispatchers@);
            assert(self.pending_of(road) == tickets_view(stv.pending@));
            if old(self).has_road(road) {
                assert(mid.limit_of(road) == old(self).limit_of(road));
                assert(mid.limit_of(road) == st0.limit.speed_limit);
                assert(stv.limit == st0.limit);
                assert(self.limit_of(road) == old(self).limit_of(road));
            }
            assert forall|q: Seq<u8>| #[trigger] self.sightings_of(road, q) == old(
                self,
            ).sightings_of(road, q) by {
                assert(mid.sightings_of(road, q) == plate_sightings(st0.plates@, q));
                assert(mid.sightings_of(road, q) == old(self).sightings_of(road, q));
            }
            assert forall|q: Seq<u8>| #[trigger] self.ticketed_of(road, q) == old(
                self,
            ).ticketed_of(road, q) by {
                assert(mid.ticketed_of(road, q) == plate_days(st0.plates@, q));
                assert(mid.ticketed_of(road, q) == old(self).ticketed_of(road, q));
            }
            assert forall|r2: u16| r2 != road implies #[trigger] self.road_untouched(
                *old(self),
                r2,
            ) by {
                lemma_road_idx_update(mid.roads@, ri as int, stv, r2);
                lemma_road_idx_bounds(mid.roads@, r2);
                assert(mid.road_untouched(*old(self), r2));
                assert(self.has_road(r2) == mid.has_road(r2));
                if mid.has_road(r2) {
                    assert(self.road_state(r2) == mid.road_state(r2));
                }
                assert forall|q: Seq<u8>| #[trigger] self.sightings_of(r2, q) == old(
                    self,
                ).sightings_of(r2, q) by {
                    assert(mid.sightings_of(r2, q) == old(self).sightings_of(r2, q));
                }
                assert forall|q: Seq<u8>| #[trigger] self.ticketed_of(r2, q) == old(
                    self,
                ).ticketed_of(r2, q) by {
                    assert(mid.ticketed_of(r2, q) == old(self).ticketed_of(r2, q));
                }
            }
        }
    }

    /// Unregisters a disconnected dispatcher from every road, so that later
    /// tickets queue again until another dispatcher binds.
    pub fn unbind_dispatcher(&mut self, conn: u64)
        requires
            old(self).wf(),
        ensures
            final(self).wf(),
            forall|r: u16| #[trigger]
                final(self).dispatchers_of(r) == spec_without(old(self).dispatchers_of(r), conn),
            forall|r: u16| #[trigger] final(self).has_road(r) == old(self).has_road(r),
            forall|r: u16| #[trigger] final(self).pending_of(r) == old(self).pending_of(r),
            forall|r: u16|
                old(self).has_road(r) ==> #[trigger] final(self).limit_of(r) == old(
                    self,
                ).limit_of(r),
            forall|r: u16, q: Seq<u8>| #[trigger]
                final(self).sightings_of(r, q) == old(self).sightings_of(r, q),
            forall|r: u16, q: Seq<u8>| #[trigger]
                final(self).ticketed_of(r, q) == old(self).ticketed_of(r, q),
    {
        let n = self.roads.len();
        let mut i: usize = 0;
        while i < n
            invariant
                i <= n,
                n == self.roads@.len(),
                self.roads@.len() == old(self).roads@.len(),
                old(self).wf(),
                self.wf(),
                forall|k: int|
                    0 <= k < n ==> (#[trigger] self.roads@[k]).road == old(self).roads@[k].road
                        && self.roads@[k].limit == old(self).roads@[k].limit
                        && self.roads@[k].plates@ == old(self).roads@[k].plates@
                        && self.roads@[k].pending@ == old(self).roads@[k].pending@,
                forall|k: int|
                    0 <= k < i ==> (#[trigger] self.roads@[k]).dispatchers@ == spec_without(
                        old(self).roads@[k].dispatchers@,
                        conn,
                    ),
                forall|k: int|
                    i <= k < n ==> (#[trigger] self.roads@[k]).dispatchers@ == old(
                        self,
                    ).roads@[k].dispatchers@,
            decreases n - i,
        {
            let filtered = without_conn(&self.roads[i].dispatchers, conn);
            let mut st = RoadState {
                road: 0,
                limit: Road { speed_limit: 0 },
                plates: Vec::new(),
                dispatchers: Vec::new(),
                pending: Vec::new(),
            };
            self.roads.set_and_swap(i, &mut st);
            st.dispatchers = filtered;
            self.roads.set(i, st);
            i += 1;
        }
        proof {
            let a = self.roads@;
            let b = old(self).roads@;
            assert forall|r: u16| #[trigger]
                final(self).has_road(r) == old(self).has_road(r) by {
                lemma_road_idx_same_roads(a, b, r);
            }
            assert forall|r: u16| #[trigger]
                final(self).dispatchers_of(r) == spec_without(
                    old(self).dispatchers_of(r),
                    conn,
                ) by {
                lemma_road_idx_same_roads(a, b, r);
                lemma_road_idx_bounds(b, r);
                if road_idx(b, r) == -1 {
                    assert(spec_without(Seq::<u64>::empty(), conn) =~= Seq::<u64>::empty());
                }
            }
            assert forall|r: u16| #[trigger]
                final(self).pending_of(r) == old(self).pending_of(r) by {
                lemma_road_idx_same_roads(a, b, r);
                lemma_road_idx_bounds(b, r);
            }
            assert forall|r: u16|
                old(self).has_road(r) implies #[trigger] final(self).limit_of(r) == old(
                self,
            ).limit_of(r) by {
                lemma_road_idx_same_roads(a, b, r);
                lemma_road_idx_bounds(b, r);
            }
            assert forall|r: u16, q: Seq<u8>| #[trigger]
                final(self).sightings_of(r, q) == old(self).sightings_of(r, q) by {
                lemma_road_idx_same_roads(a, b, r);
                lemma_road_idx_bounds(b, r);
            }
            assert forall|r: u16, q: Seq<u8>| #[trigger]
                final(self).ticketed_of(r, q) == old(self).ticketed_of(r, q) by {
                lemma_road_idx_same_roads(a, b, r);
                lemma_road_idx_bounds(b, r);
            }
        }
    }

    /// The dispatcher a ticket for `road` goes to now: the earliest-bound
    /// one, or none.
    pub fn first_dispatcher(&self, road: u16) -> (r: Option<u64>)
        ensures
            self.dispatchers_of(road).len() > 0 ==> r == Some(self.dispatchers_of(road)[0]),
            self.dispatchers_of(road).len() == 0 ==> r is None,
    {
        let ri = find_road(&self.roads, road);
        if ri < self.roads.len() {
            if self.roads[ri].dispatchers.len() > 0 {
                Some(self.roads[ri].dispatchers[0])
            } else {
                None
            }
        } else {
            None
        }
    }
}

/// Whether `r` appears among the first `i` claimed roads.
pub open spec fn claimed(roads: Seq<u16>, i: int, r: u16) -> bool {
    exists|k: int| 0 <= k < i && roads[k] == r
}

/// The tickets a dispatcher claiming `roads` receives from a registry:
/// each road's queue in the order the roads were claimed, every road
/// counted once.
pub open spec fn spec_drained(reg: Registry, roads: Seq<u16>, seen: Set<u16>) -> Seq<TicketV>
    decreases roads.len(),
{
    if roads.len() == 0 {
        Seq::empty()
    } else {
        let head = if seen.contains(roads[0]) {
            Seq::empty()
        } else {
            reg.pending_of(roads[0])
        };
        head + spec_drained(reg, roads.drop_first(), seen.insert(roads[0]))
    }
}

/// One step of the drain, at position `i` of the road list.
pub proof fn lemma_drained_snoc(reg: Registry, roads: Seq<u16>, seen: Set<u16>, i: int)
    requires
        0 <= i < roads.len(),
    ensures
        spec_drained(reg, roads.take(i + 1), seen) == spec_drained(reg, roads.take(i), seen) + (
        if seen.contains(roads[i]) || claimed(roads, i, roads[i]) {
            Seq::empty()
        } else {
            reg.pending_of(roads[i])
        }),
    decreases i,
{
    let tail = if seen.contains(roads[i]) || claimed(roads, i, roads[i]) {
        Seq::<TicketV>::empty()
    } else {
        reg.pending_of(roads[i])
    };
    if i == 0 {
        assert(roads.take(1) =~= seq![roads[0]]);
        assert(roads.take(0) =~= Seq::<u16>::empty());
        assert(roads.take(1).drop_first() =~= Seq::<u16>::empty());
        assert(!claimed(roads, 0, roads[0]));
        assert(roads.take(1)[0] == roads[0]);
        assert(spec_drained(reg, Seq::<u16>::empty(), seen.insert(roads[0]))
            =~= Seq::<TicketV>::empty());
        assert(spec_drained(reg, roads.take(1), seen) == (if seen.contains(roads[0]) {
            Seq::<TicketV>::empty()
        } else {
            reg.pending_of(roads[0])
        }) + spec_drained(reg, Seq::<u16>::empty(), seen.insert(roads[0])));
        assert(spec_drained(reg, roads.take(1), seen) =~= tail);
        assert(spec_drained(reg, roads.take(0), seen) =~= Seq::<TicketV>::empty());
        assert(spec_drained(reg, roads.take(0), seen) + tail =~= tail);
    } else {
        lemma_drained_snoc(reg, roads.drop_first(), seen.insert(roads[0]), i - 1);
        assert(roads.take(i + 1).drop_first() =~= roads.drop_first().take(i));
        assert(roads.take(i).drop_first() =~= roads.drop_first().take(i - 1));
        assert(roads.take(i + 1)[0] == roads[0]);
        assert(roads.take(i)[0] == roads[0]);
        assert(roads.drop_first()[i - 1] == roads[i]);
        let head = if seen.contains(roads[0]) {
            Seq::<TicketV>::empty()
        } else {
            reg.pending_of(roads[0])
        };
        let seen1 = seen.insert(roads[0]);
        assert(spec_drained(reg, roads.take(i + 1), seen) == head + spec_drained(
            reg,
            roads.drop_first().take(i),
            seen1,
        ));
        assert(spec_drained(reg, roads.take(i), seen) == head + spec_drained(
            reg,
            roads.drop_first().take(i - 1),
            seen1,
        ));
        assert((seen1.contains(roads[i]) || claimed(roads.drop_first(), i - 1, roads[i])) == (
        seen.contains(roads[i]) || claimed(roads, i, roads[i]))) by {
            if claimed(roads, i, roads[i]) {
                let k = choose|k: int| 0 <= k < i && roads[k] == roads[i];
                if k == 0 {
                    assert(seen1.contains(roads[i]));
                } else {
                    assert(roads.drop_first()[k - 1] == roads[i]);
                    assert(claimed(roads.drop_first(), i - 1, roads[i]));
                }
            }
            if claimed(roads.drop_first(), i - 1, roads[i]) {
                let k = choose|k: int| 0 <= k < i - 1 && roads.drop_first()[k] == roads[i];
                assert(roads[k + 1] == roads[i]);
                assert(claimed(roads, i, roads[i]));
            }
            if seen1.contains(roads[i]) && !seen.contains(roads[i]) {
                assert(roads[0] == roads[i]);
                assert(claimed(roads, i, roads[i]));
            }
        }
        assert(head + (spec_drained(reg, roads.drop_first().take(i - 1), seen1) + tail) =~= (head
            + spec_drained(reg, roads.drop_first().take(i - 1), seen1)) + tail);
    }
}

impl Registry {
    /// Registers `conn` as a dispatcher for every claimed road at once and
    /// hands it everything queued for them: each road's tickets oldest
    /// first, road by road in the claimed order.
    pub fn bind_dispatcher_all(&mut self, roads: &Vec<u16>, conn: u64) -> (drained: Vec<Ticket>)
        requires
            old(self).wf(),
        ensures
            final(self).wf(),
            tickets_view(drained@) == spec_drained(*old(self), roads@, Set::empty()),
            forall|r: u16|
                roads@.contains(r) ==> (#[trigger] final(self).pending_of(r)
                    == Seq::<TicketV>::empty() && final(self).has_road(r)
                    && final(self).dispatchers_of(r) == (if old(self).dispatchers_of(r).contains(
                    conn,
                ) {
                    old(self).dispatchers_of(r)
                } else {
                    old(self).dispatchers_of(r).push(conn)
                })),
            forall|r: u16|
                !roads@.contains(r) ==> #[trigger] final(self).road_untouched(*old(self), r),
            forall|r: u16, q: Seq<u8>| #[trigger]
                final(self).sightings_of(r, q) == old(self).sightings_of(r, q),
            forall|r: u16, q: Seq<u8>| #[trigger]
                final(self).ticketed_of(r, q) == old(self).ticketed_of(r, q),
    {
        let n = roads.len();
        let mut drained: Vec<Ticket> = Vec::new();
        let mut i: usize = 0;
        proof {
            assert(roads@.take(0) =~= Seq::<u16>::empty());
            assert(tickets_view(drained@) =~= Seq::<TicketV>::empty());
        }
        while i < n
            invariant
                i <= n,
                n == roads@.len(),
                old(self).wf(),
                self.wf(),
                tickets_view(drained@) == spec_drained(*old(self), roads@.take(i as int), Set::empty()),
                forall|r: u16|
                    claimed(roads@, i as int, r) ==> #[trigger] self.pending_of(r)
                        == Seq::<TicketV>::empty() && self.has_road(r) && self.dispatchers_of(r)
                        == (if old(self).dispatchers_of(r).contains(conn) {
                        old(self).dispatchers_of(r)
                    } else {
                        old(self).dispatchers_of(r).push(conn)
                    }),
                forall|r: u16|
                    !claimed(roads@, i as int, r) ==> #[trigger] self.road_untouched(
                        *old(self),
                        r,
                    ),
                forall|r: u16, q: Seq<u8>| #[trigger]
                    self.sightings_of(r, q) == old(self).sightings_of(r, q),
                forall|r: u16, q: Seq<u8>| #[trigger]
                    self.ticketed_of(r, q) == old(self).ticketed_of(r, q),
            decreases n - i,
        {
            let road = roads[i];
            let ghost pre = *self;
            let mut part = self.bind_dispatcher(road, conn);
            let ghost partv = part@;
            drained.append(&mut part);
            proof {
                lemma_drained_snoc(*old(self), roads@, Set::empty(), i as int);
                lemma_tickets_view_concat(drained@.take(drained@.len() - partv.len()), partv);
                assert(drained@.take(drained@.len() - partv.len()) + partv =~= drained@);
                let was_claimed = claimed(roads@, i as int, road);
                if was_claimed {
                    assert(pre.pending_of(road) == Seq::<TicketV>::empty());
                    assert(tickets_view(partv) =~= Seq::<TicketV>::empty());
                    assert(pre.dispatchers_of(road).contains(conn)) by {
                        if !old(self).dispatchers_of(road).contains(conn) {
                            let k = old(self).dispatchers_of(road).len() as int;
                            assert(pre.dispatchers_of(road)[k] == conn);
                        }
                    }
                } else {
                    assert(pre.road_untouched(*old(self), road));
                    assert(pre.pending_of(road) == old(self).pending_of(road));
                    assert(pre.dispatchers_of(road) == old(self).dispatchers_of(road));
                }
                assert(tickets_view(drained@) == spec_drained(
                    *old(self),
                    roads@.take(i as int + 1),
                    Set::empty(),
                ));
                assert forall|r: u16|
                    claimed(roads@, i as int + 1, r) implies #[trigger] self.pending_of(r)
                    == Seq::<TicketV>::empty() && self.has_road(r) && self.dispatchers_of(r) == (
                if old(self).dispatchers_of(r).contains(conn) {
                    old(self).dispatchers_of(r)
                } else {
                    old(self).dispatchers_of(r).push(conn)
                }) by {
                    if r == road {
                    } else {
                        let k = choose|k: int| 0 <= k < i as int + 1 && roads@[k] == r;
                        assert(k < i as int);
                        assert(claimed(roads@, i as int, r));
                        assert(self.road_untouched(pre, r));
                    }
                }
                assert forall|r: u16|
                    !claimed(roads@, i as int + 1, r) implies #[trigger] self.road_untouched(
                    *old(self),
                    r,
                ) by {
                    assert(!claimed(roads@, i as int, r));
                    assert(r != road) by {
                        assert(roads@[i as int] == road);
                    }
                    assert(self.road_untouched(pre, r));
                    assert(pre.road_untouched(*old(self), r));
                    assert forall|q: Seq<u8>| #[trigger] self.sightings_of(r, q) == old(
                        self,
                    ).sightings_of(r, q) by {
                        assert(pre.sightings_of(r, q) == old(self).sightings_of(r, q));
                    }
                    assert forall|q: Seq<u8>| #[trigger] self.ticketed_of(r, q) == old(
                        self,
                    ).ticketed_of(r, q) by {
                        assert(pre.ticketed_of(r, q) == old(self).ticketed_of(r, q));
                    }
                }
                assert forall|r: u16, q: Seq<u8>| #[trigger] self.sightings_of(r, q) == old(
                    self,
                ).sightings_of(r, q) by {
                    if r == road {
                        assert(self.sightings_of(road, q) == pre.sightings_of(road, q));
                    } else {
                        assert(self.road_untouched(pre, r));
                        assert(self.sightings_of(r, q) == pre.sightings_of(r, q));
                    }
                    assert(pre.sightings_of(r, q) == old(self).sightings_of(r, q));
                }
                assert forall|r: u16, q: Seq<u8>| #[trigger] self.ticketed_of(r, q) == old(
                    self,
                ).ticketed_of(r, q) by {
                    if r == road {
                        assert(self.ticketed_of(road, q) == pre.ticketed_of(road, q));
                    } else {
                        assert(self.road_untouched(pre, r));
                        assert(self.ticketed_of(r, q) == pre.ticketed_of(r, q));
                    }
                    assert(pre.ticketed_of(r, q) == old(self).ticketed_of(r, q));
                }
            }
            i += 1;
        }
        proof {
            assert(roads@.take(n as int) =~= roads@);
            assert forall|r: u16| roads@.contains(r) implies claimed(roads@, n as int, r) by {}
            assert forall|r: u16| !roads@.contains(r) implies !claimed(roads@, n as int, r) by {}
        }
        drained
    }
}

// ---------------------------------------------------------------------------
// Laws
// ---------------------------------------------------------------------------

/// The pair-by-pair fold never tickets an already-ticketed day: when `d` is
/// ticketed before, no emitted ticket's day range covers `d`, and `d` is
/// still ticketed afterwards.
pub proof fn lemma_process_spares_day(
    history: Seq<Sighting>,
    new: Sighting,
    plate: Seq<u8>,
    road: u16,
    limit: u16,
    days0: Set<int>,
    d: int,
)
    requires
        days0.contains(d),
    ensures
        ({
            let fold = spec_process(history, new, plate, road, limit, days0);
            &&& fold.days.contains(d)
            &&& forall|k: int|
                0 <= k < fold.tickets.len() ==> !(spec_day(
                    (#[trigger] fold.tickets[k]).timestamp1,
                ) <= d <= spec_day(fold.tickets[k].timestamp2))
        }),
    decreases history.len(),
{
    if history.len() > 0 {
        let s = history[0];
        let d1 = spec_day(spec_earlier(s, new).timestamp);
        let d2 = spec_day(spec_later(s, new).timestamp);
        let fold = spec_process(history, new, plate, road, limit, days0);
        if spec_over_limit(s, new, limit) && days_free(days0, d1, d2) {
            let days1 = days0.union(Set::new(|x: int| d1 <= x <= d2));
            assert(days1.contains(d));
            lemma_process_spares_day(history.drop_first(), new, plate, road, limit, days1, d);
            let rest = spec_process(history.drop_first(), new, plate, road, limit, days1);
            let t = spec_ticket(plate, road, s, new);
            assert(spec_day(t.timestamp1) == d1);
            assert(spec_day(t.timestamp2) == d2);
            assert(!(d1 <= d <= d2));
            assert forall|k: int|
                0 <= k < fold.tickets.len() implies !(spec_day(
                (#[trigger] fold.tickets[k]).timestamp1,
            ) <= d <= spec_day(fold.tickets[k].timestamp2)) by {
                if k == 0 {
                    assert(fold.tickets[0] == t);
                } else {
                    assert(fold.tickets[k] == rest.tickets[k - 1]);
                }
            }
        } else {
            lemma_process_spares_day(history.drop_first(), new, plate, road, limit, days0, d);
        }
    }
}

/// A plate ticketed for a violation covering day `d` on a road is never
/// ticketed again on that road for any sighting pair whose day range covers
/// `d`: after recording any further sighting, neither the tickets delivered
/// at once nor those newly queued cover `d`, and `d` stays ticketed.
pub proof fn lemma_no_double_ticket(
    pre: Registry,
    post: Registry,
    road: u16,
    plate: Seq<u8>,
    mile: u16,
    timestamp: u32,
    limit: u16,
    delivered: Seq<TicketV>,
    d: int,
)
    requires
        record_post(pre, post, road, plate, mile, timestamp, limit, delivered),
        pre.ticketed_of(road, plate).contains(d),
    ensures
        post.ticketed_of(road, plate).contains(d),
        forall|k: int|
            0 <= k < delivered.len() ==> !(spec_day((#[trigger] delivered[k]).timestamp1) <= d
                <= spec_day(delivered[k].timestamp2)),
        forall|k: int|
            pre.pending_of(road).len() <= k < post.pending_of(road).len() ==> !(spec_day(
                (#[trigger] post.pending_of(road)[k]).timestamp1,
            ) <= d <= spec_day(post.pending_of(road)[k].timestamp2)),
{
    let s = Sighting { mile: mile, timestamp: timestamp };
    let fold = spec_process(
        pre.sightings_of(road, plate),
        s,
        plate,
        road,
        limit,
        pre.ticketed_of(road, plate),
    );
    lemma_process_spares_day(
        pre.sightings_of(road, plate),
        s,
        plate,
        road,
        limit,
        pre.ticketed_of(road, plate),
        d,
    );
    if pre.dispatchers_of(road).len() == 0 {
        assert forall|k: int|
            pre.pending_of(road).len() <= k < post.pending_of(road).len() implies !(spec_day(
            (#[trigger] post.pending_of(road)[k]).timestamp1,
        ) <= d <= spec_day(post.pending_of(road)[k].timestamp2)) by {
            assert(post.pending_of(road)[k] == fold.tickets[k - pre.pending_of(road).len()]);
        }
    }
}

/// A ticket computed while no dispatcher is bound is retained, not dropped:
/// nothing is delivered at once, and a dispatcher binding afterwards
/// receives first the tickets queued before, then the newly computed ones,
/// in emission order; the queue is then empty.
pub proof fn lemma_queue_then_bind_fifo(
    r0: Registry,
    r1: Registry,
    r2: Registry,
    road: u16,
    plate: Seq<u8>,
    mile: u16,
    timestamp: u32,
    limit: u16,
    delivered: Seq<TicketV>,
    conn: u64,
    drained: Seq<TicketV>,
)
    requires
        r0.dispatchers_of(road).len() == 0,
        record_post(r0, r1, road, plate, mile, timestamp, limit, delivered),
        bind_post(r1, r2, road, conn, drained),
    ensures
        delivered == Seq::<TicketV>::empty(),
        drained == r0.pending_of(road) + spec_process(
            r0.sightings_of(road, plate),
            Sighting { mile: mile, timestamp: timestamp },
            plate,
            road,
            limit,
            r0.ticketed_of(road, plate),
        ).tickets,
        r2.pending_of(road) == Seq::<TicketV>::empty(),
{
}

} // verus!
