//! Catching up: how long a frame goes on stepping the simulation.
//!
//! The step of the simulation need not be the time between two frames. A frame
//! steps the simulation until its clock has covered the frame's share of time,
//! which is one over the frame rate that is aimed at.

use core::cmp::Ordering;
use core::ops::Sub;
use vstd::prelude::*;
use vstd::std_specs::cmp::PartialOrdSpec;
use vstd::std_specs::ops::SubSpec;

verus! {

/// What a frame does next.
#[derive(Debug, Clone, Copy, PartialEq, Eq, Structural)]
pub enum CatchUp {
    /// The simulation is stepped once more.
    Step,
    /// The frame's share of time is covered: the state is read and published.
    Done,
}

/// The clock, at `now`, has advanced by less than `share` since `start`.
pub open spec fn is_behind<S: Sub<Output = S> + PartialOrd>(now: S, start: S, share: S) -> bool {
    now.sub_spec(start).partial_cmp_spec(&share) == Some(Ordering::Less)
}

/// Whether the simulation is stepped once more in this frame: it is while its
/// clock, which stood at `start` when the frame began and stands at `now`, has
/// advanced by less than `share`.
pub fn catch_up<S: Copy + Sub<Output = S> + PartialOrd>(now: S, start: S, share: S) -> (next: CatchUp)
    requires
        now.sub_req(start),
    ensures
        S::obeys_sub_spec() && S::obeys_partial_cmp_spec() ==> next == if is_behind(
            now,
            start,
            share,
        ) {
            CatchUp::Step
        } else {
            CatchUp::Done
        },
        !S::obeys_sub_spec() || !S::obeys_partial_cmp_spec() ==> next == CatchUp::Step || next
            == CatchUp::Done,
{
    if now.sub(start) < share {
        CatchUp::Step
    } else {
        CatchUp::Done
    }
}

} // verus!
