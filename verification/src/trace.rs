//! Bounce decisions of the radiance integrator.
//!
//! The integrator follows one camera ray through the scene: a miss is
//! answered by the sky gradient; on a hit the struck material is asked to
//! scatter, the attenuation multiplied in and the scattered ray followed —
//! until absorption or an exhausted bounce budget, both of which answer
//! black. The decisions live here; the caller performs the intersection,
//! the scattering and the color arithmetic, and reports what happened.

use vstd::prelude::*;

verus! {

/// What the scene and the struck material reported for the current ray.
#[derive(Clone, Copy, PartialEq, Eq, Structural, Debug)]
pub enum TraceEvent {
    /// The ray hit nothing.
    Miss,
    /// The ray hit a surface and the material produced a scattered ray.
    Scattered,
    /// The ray hit a surface and the material absorbed it.
    Absorbed,
}

/// What the integrator does next.
#[derive(Clone, Copy, PartialEq, Eq, Structural, Debug)]
pub enum TraceStep {
    /// Evaluate the sky gradient for the current ray; the path ends.
    Sky,
    /// Multiply the attenuation in and follow the scattered ray.
    Bounce,
    /// The path contributes black: absorbed, or the bounce budget is spent.
    Black,
}

/// The integrator's decision at the given depth: a miss always shows the
/// sky; a scattered hit is followed only while the budget lasts; an
/// absorbed hit, or any hit once the budget is spent, is black.
pub open spec fn trace_step_spec(depth: int, max_bounce: int, event: TraceEvent) -> TraceStep {
    match event {
        TraceEvent::Miss => TraceStep::Sky,
        TraceEvent::Scattered => if depth < max_bounce {
            TraceStep::Bounce
        } else {
            TraceStep::Black
        },
        TraceEvent::Absorbed => TraceStep::Black,
    }
}

/// The state of one path being traced: how many bounces were granted so
/// far, against the fixed budget.
#[derive(Clone, Copy, PartialEq, Eq, Structural, Debug)]
pub struct PathRun {
    pub depth: i32,
    pub max_bounce: i32,
}

impl PathRun {
    /// The depth never leaves `0 ..= max_bounce`.
    pub open spec fn wf(self) -> bool {
        0 <= self.depth <= self.max_bounce
    }

    pub fn new(max_bounce: i32) -> (r: PathRun)
        requires
            max_bounce >= 0,
        ensures
            r.wf(),
            r.depth == 0,
            r.max_bounce == max_bounce,
    {
        PathRun { depth: 0, max_bounce }
    }

    /// Whether the integrator may still ask a material to scatter: false
    /// once the bounce budget is spent.
    pub fn may_bounce(&self) -> (b: bool)
        ensures
            b <==> self.depth < self.max_bounce,
    {
        self.depth < self.max_bounce
    }

    /// Decide what to do for the reported event, and advance the depth
    /// when the scattered ray is to be followed.
    pub fn step(&mut self, event: TraceEvent) -> (s: TraceStep)
        requires
            old(self).wf(),
        ensures
            final(self).wf(),
            final(self).max_bounce == old(self).max_bounce,
            s == trace_step_spec(old(self).depth as int, old(self).max_bounce as int, event),
            s == TraceStep::Bounce ==> final(self).depth == old(self).depth + 1 && old(self).depth
                < old(self).max_bounce,
            s != TraceStep::Bounce ==> final(self).depth == old(self).depth,
    {
        match event {
            TraceEvent::Miss => TraceStep::Sky,
            TraceEvent::Scattered => {
                if self.depth < self.max_bounce {
                    self.depth = self.depth + 1;
                    TraceStep::Bounce
                } else {
                    TraceStep::Black
                }
            },
            TraceEvent::Absorbed => TraceStep::Black,
        }
    }
}

/// How many bounces the integrator grants for a stream of events starting
/// at `depth`: the count of leading decisions that come out `Bounce`; any
/// other decision ends the path.
pub open spec fn bounces_granted(events: Seq<TraceEvent>, depth: int, max_bounce: int) -> int
    decreases events.len(),
{
    if events.len() == 0 {
        0
    } else {
        match trace_step_spec(depth, max_bounce, events.first()) {
            TraceStep::Bounce => 1 + bounces_granted(events.drop_first(), depth + 1, max_bounce),
            TraceStep::Sky => 0,
            TraceStep::Black => 0,
        }
    }
}

/// Whatever the scene and the materials report, a path started at `depth`
/// is granted at most `max_bounce - depth` further bounces: the recursion
/// of the integrator is bounded by the budget.
pub proof fn lemma_bounce_budget(events: Seq<TraceEvent>, depth: int, max_bounce: int)
    requires
        0 <= depth <= max_bounce,
    ensures
        bounces_granted(events, depth, max_bounce) <= max_bounce - depth,
    decreases events.len(),
{
    if events.len() > 0 {
        match trace_step_spec(depth, max_bounce, events.first()) {
            TraceStep::Bounce => {
                lemma_bounce_budget(events.drop_first(), depth + 1, max_bounce);
            },
            TraceStep::Sky => {},
            TraceStep::Black => {},
        }
    }
}

} // verus!
