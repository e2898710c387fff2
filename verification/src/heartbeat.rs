//! The heartbeat schedule.
//!
//! A client may ask once for heartbeats every `interval` deciseconds.  An
//! interval of 0 means heartbeats are disabled: no timer is created and no
//! heartbeat frame is ever sent.  A nonzero interval sends one frame at once
//! and one more after each further interval, until the connection closes.
//! The arithmetic of that cadence lives here; the timer that realizes it is
//! ordinary runtime plumbing outside the library.

use vstd::prelude::*;

verus! {

/// How many heartbeat frames the schedule emits during an observation
/// window of `window` deciseconds: none when the interval is 0, else one
/// frame at each time `k * interval` that lies before the window's end.
pub open spec fn spec_heartbeat_count(interval: nat, window: nat) -> nat {
    if interval == 0 {
        0
    } else {
        ((window + interval - 1) as int / interval as int) as nat
    }
}

/// Whether the schedule sends anything at all.
pub fn heartbeat_enabled(interval: u32) -> (r: bool)
    ensures
        r == (interval != 0),
{
    interval != 0
}

/// The number of heartbeat frames sent during a window of `window`
/// deciseconds.
pub fn heartbeat_count(interval: u32, window: u32) -> (r: u64)
    ensures
        r == spec_heartbeat_count(interval as nat, window as nat),
{
    if interval == 0 {
        0
    } else {
        (window as u64 + interval as u64 - 1) / (interval as u64)
    }
}

/// The cadence law: with interval 0 no frame is ever sent, and with a
/// nonzero interval the frames that fall inside the window are exactly the
/// k-th beats, at times `k * interval`, with k below the count.
pub proof fn lemma_heartbeat_cadence(interval: nat, window: nat, k: nat)
    ensures
        interval == 0 ==> spec_heartbeat_count(interval, window) == 0,
        interval > 0 ==> (k * interval < window <==> k < spec_heartbeat_count(interval, window)),
{
    if interval > 0 {
        let i = interval as int;
        let w = window as int;
        let c = (w + i - 1) / i;
        vstd::arithmetic::div_mod::lemma_fundamental_div_mod(w + i - 1, i);
        vstd::arithmetic::div_mod::lemma_mod_bound(w + i - 1, i);
        let r = (w + i - 1) % i;
        assert(w + i - 1 == i * c + r);
        if (k as int) < c {
            vstd::arithmetic::mul::lemma_mul_inequality(k as int, c - 1, i);
            vstd::arithmetic::mul::lemma_mul_is_distributive_sub(i, c, 1);
            assert((c - 1) * i == i * c - i) by {
                vstd::arithmetic::mul::lemma_mul_is_commutative(c - 1, i);
            }
            assert((k as int) * i <= i * c - i);
            assert(i * c - i == w - 1 - r);
            assert((k as int) * i < w);
        }
        if (k as int) >= c {
            vstd::arithmetic::mul::lemma_mul_inequality(c, k as int, i);
            assert(c * i <= (k as int) * i);
            assert(i * c == w + i - 1 - r) by {}
            assert(c * i == i * c) by {
                vstd::arithmetic::mul::lemma_mul_is_commutative(c, i);
            }
            assert(i - 1 - r >= 0);
            assert((k as int) * i >= w);
        }
    }
}

} // verus!
