//! Ticket computation: given two sightings of one plate on one road, decide
//! whether a ticket is owed and what its fields are.
//!
//! The policy is zero tolerance: a pair of sightings warrants a ticket
//! exactly when the average speed it implies is strictly over the road's
//! limit.  Exactly the limit is no offense.  A pair with equal timestamps
//! implies no average speed and never warrants a ticket.

use vstd::prelude::*;
use crate::codec::Ticket;
use crate::codec::TicketV;

verus! {

pub const SECONDS_PER_DAY: u32 = 86400;

/// One camera observation: a mile marker and a time, with the road and the
/// plate kept by the surrounding registry.
#[derive(Clone, Copy, Debug, PartialEq, Eq, Structural)]
pub struct Sighting {
    pub mile: u16,
    pub timestamp: u32,
}

/// The calendar day a timestamp falls on.
pub open spec fn spec_day(t: u32) -> int {
    t as int / (SECONDS_PER_DAY as int)
}

/// Of two sightings, the one made first; on equal timestamps, the first
/// argument.
pub open spec fn spec_earlier(a: Sighting, b: Sighting) -> Sighting {
    if a.timestamp <= b.timestamp {
        a
    } else {
        b
    }
}

/// Of two sightings, the one made last; on equal timestamps, the second
/// argument.
pub open spec fn spec_later(a: Sighting, b: Sighting) -> Sighting {
    if a.timestamp <= b.timestamp {
        b
    } else {
        a
    }
}

/// Miles between the two mile markers.
pub open spec fn spec_distance(a: Sighting, b: Sighting) -> int {
    if a.mile >= b.mile {
        a.mile - b.mile
    } else {
        b.mile - a.mile
    }
}

/// Seconds between the two sightings.
pub open spec fn spec_elapsed(a: Sighting, b: Sighting) -> int {
    spec_later(a, b).timestamp - spec_earlier(a, b).timestamp
}

/// Whether the pair implies an average speed strictly over `limit` miles
/// per hour.  Stated without division: distance/elapsed > limit/3600 exactly
/// when distance * 3600 > limit * elapsed.
pub open spec fn spec_over_limit(a: Sighting, b: Sighting, limit: u16) -> bool {
    spec_elapsed(a, b) > 0 && spec_distance(a, b) * 3600 > limit * spec_elapsed(a, b)
}

/// The average speed in hundredths of a mile per hour, rounded down and
/// clamped to what the wire format's field can carry.
pub open spec fn spec_speed100(a: Sighting, b: Sighting) -> int {
    let s = spec_distance(a, b) * 360000 / spec_elapsed(a, b);
    if s > 65535 {
        65535
    } else {
        s
    }
}

/// The ticket a warranted pair yields: the earlier sighting first.
pub open spec fn spec_ticket(plate: Seq<u8>, road: u16, a: Sighting, b: Sighting) -> TicketV {
    TicketV {
        plate: plate,
        road: road,
        mile1: spec_earlier(a, b).mile,
        timestamp1: spec_earlier(a, b).timestamp,
        mile2: spec_later(a, b).mile,
        timestamp2: spec_later(a, b).timestamp,
        speed: spec_speed100(a, b) as u16,
    }
}

/// The earlier sighting's day never lies after the later sighting's day.
pub proof fn lemma_day_ordered(a: Sighting, b: Sighting)
    ensures
        spec_day(spec_earlier(a, b).timestamp) <= spec_day(spec_later(a, b).timestamp),
{
    vstd::arithmetic::div_mod::lemma_div_is_ordered(
        spec_earlier(a, b).timestamp as int,
        spec_later(a, b).timestamp as int,
        SECONDS_PER_DAY as int,
    );
}

/// A pair implying exactly the limit is not over it: not-strictly-over is
/// no offense, whatever the elapsed time.
pub proof fn lemma_at_limit_no_offense(a: Sighting, b: Sighting, limit: u16)
    requires
        spec_distance(a, b) * 3600 == limit * spec_elapsed(a, b),
    ensures
        !spec_over_limit(a, b, limit),
{
}

/// Decides whether the pair `a`, `b` warrants a ticket for `plate` on
/// `road`, and builds the ticket if so.
pub fn evaluate(plate: &Vec<u8>, road: u16, a: Sighting, b: Sighting, limit: u16) -> (r: Option<
    Ticket,
>)
    ensures
        spec_over_limit(a, b, limit) ==> (r matches Some(t) && t@ == spec_ticket(
            plate@,
            road,
            a,
            b,
        )),
        !spec_over_limit(a, b, limit) ==> r is None,
{
    let (e, l) = if a.timestamp <= b.timestamp {
        (a, b)
    } else {
        (b, a)
    };
    let dt = (l.timestamp - e.timestamp) as u64;
    if dt == 0 {
        return None;
    }
    let dist = if a.mile >= b.mile {
        (a.mile - b.mile) as u64
    } else {
        (b.mile - a.mile) as u64
    };
    proof {
        assert(limit as int * dt as int <= 65535 * 0xffffffffu64) by (nonlinear_arith)
            requires
                limit <= 65535,
                dt <= 0xffffffffu64,
        ;
    }
    if dist * 3600 > (limit as u64) * dt {
        let s = dist * 360000 / dt;
        let speed: u16 = if s > 65535 {
            65535
        } else {
            s as u16
        };
        Some(
            Ticket {
                plate: clone_bytes(plate),
                road,
                mile1: e.mile,
                timestamp1: e.timestamp,
                mile2: l.mile,
                timestamp2: l.timestamp,
                speed,
            },
        )
    } else {
        None
    }
}

/// A fresh copy of a byte string.
pub fn clone_bytes(v: &Vec<u8>) -> (r: Vec<u8>)
    ensures
        r@ == v@,
{
    let mut r: Vec<u8> = Vec::new();
    let mut i: usize = 0;
    while i < v.len()
        invariant
            i <= v@.len(),
            r@ =~= v@.take(i as int),
        decreases v@.len() - i,
    {
        r.push(v[i]);
        i += 1;
    }
    proof {
        assert(v@.take(v@.len() as int) =~= v@);
    }
    r
}

} // verus!
