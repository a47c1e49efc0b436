//! The kinds of driving events that the rule engine detects in telemetry.
use vstd::prelude::*;

verus! {

/// A kind of detected driving event.
#[derive(Clone, Copy, Debug, PartialEq, Eq, Structural)]
pub enum DetectedEventType {
    /// Deceleration above 15 km/h per second with the brake applied.
    HardBrake,
    /// Acceleration above 15 km/h per second.
    HardAccel,
    /// Steering faster than 90 degrees per second above 20 km/h.
    SharpTurn,
    /// A change into reverse gear.
    ReverseGear,
    /// A change of the driver-assistance state.
    AutopilotChange,
    /// Standing still (below 1 km/h) for more than 3 seconds.
    Stop,
    /// Crossing 110 km/h.
    SpeedExceed,
}

/// How many of `types` are `t`.
pub open spec fn count_type(types: Seq<DetectedEventType>, t: DetectedEventType) -> nat {
    types.filter(|x: DetectedEventType| x == t).len()
}

impl DetectedEventType {
    /// Whether two events are of the same kind.
    pub fn same_kind(&self, other: &DetectedEventType) -> (r: bool)
        ensures
            r == (*self == *other),
    {
        *self == *other
    }
}

/// The number of events of kind `t` in `types`.
pub fn count_of_type(types: &Vec<DetectedEventType>, t: DetectedEventType) -> (r: usize)
    ensures
        r == count_type(types@, t),
{
    let n = types.len();
    let mut c: usize = 0;
    let mut i: usize = 0;
    while i < n
        invariant
            n == types@.len(),
            i <= n,
            c == count_type(types@.take(i as int), t),
            c <= i,
        decreases n - i,
    {
        proof {
            assert(types@.take(i + 1).drop_last() =~= types@.take(i as int));
            reveal(Seq::filter);
        }
        if types[i] == t {
            c = c + 1;
        }
        i = i + 1;
    }
    proof {
        assert(types@.take(n as int) =~= types@);
    }
    c
}

} // verus!
