//! The depth-bounded walk of one light path through a scene.
//!
//! A path starts with a budget of bounces. While budget is left, the caller
//! casts the current ray into the scene and reports what happened as an
//! [`Event`]; [`advance`] answers with the next [`Step`]. A path that runs
//! out of budget ends in black, so a hall of mirrors cannot trap it.

use vstd::prelude::*;

verus! {

/// What casting a ray into the scene came to.
#[derive(Clone, Copy, Debug, PartialEq, Eq, Structural)]
pub enum Event {
    /// The ray left the scene without striking anything.
    Miss,
    /// The ray struck a surface whose material swallowed it.
    Absorbed,
    /// The ray struck a surface and was sent on in a new direction.
    Scattered,
}

/// The light found at the end of a path, before the surfaces along the path
/// tint it.
#[derive(Clone, Copy, Debug, PartialEq, Eq, Structural)]
pub enum Radiance {
    /// No light.
    Black,
    /// The background gradient, taken in the direction of the last ray.
    Sky,
}

/// What the integrator does next.
#[derive(Clone, Copy, Debug, PartialEq, Eq, Structural)]
pub enum Step {
    /// The path is over and carries this light.
    Finish(Radiance),
    /// Cast the current ray; this many bounces are left, the cast included.
    Cast(u64),
}

/// A finished path.
#[derive(Clone, Copy, Debug, PartialEq, Eq, Structural)]
pub struct Path {
    /// The light at the far end.
    pub radiance: Radiance,
    /// How many surfaces scattered the ray on the way, each of which tints
    /// the light once.
    pub bounces: u64,
}

/// The first step of a path with `depth` bounces to spend.
pub open spec fn first_step(depth: u64) -> Step {
    if depth == 0 {
        Step::Finish(Radiance::Black)
    } else {
        Step::Cast(depth)
    }
}

/// The step that follows `event`, seen with `depth` bounces left. With no
/// budget left no ray is cast, and the event counts for nothing.
pub open spec fn next_step(depth: u64, event: Event) -> Step {
    if depth == 0 {
        Step::Finish(Radiance::Black)
    } else {
        match event {
            Event::Miss => Step::Finish(Radiance::Sky),
            Event::Absorbed => Step::Finish(Radiance::Black),
            Event::Scattered => first_step((depth - 1) as u64),
        }
    }
}

/// Where a path with `depth` bounces to spend ends when its casts report
/// `events[at]`, `events[at + 1]`, and so on, together with the number of
/// scatterings on the way. `None` while the events run out before the path
/// has ended.
pub open spec fn settle(depth: nat, events: Seq<Event>, at: nat) -> Option<(Radiance, nat)>
    decreases depth,
{
    if depth == 0 {
        Some((Radiance::Black, 0nat))
    } else if at >= events.len() {
        None
    } else {
        match events[at as int] {
            Event::Miss => Some((Radiance::Sky, 0nat)),
            Event::Absorbed => Some((Radiance::Black, 0nat)),
            Event::Scattered => match settle((depth - 1) as nat, events, at + 1) {
                Some((radiance, bounces)) => Some((radiance, bounces + 1)),
                None => None,
            },
        }
    }
}

/// Starts a path: tells whether a ray is to be cast at all.
pub fn begin(depth: u64) -> (step: Step)
    ensures
        step == first_step(depth),
        step matches Step::Cast(left) ==> left == depth && depth > 0,
{
    if depth == 0 {
        Step::Finish(Radiance::Black)
    } else {
        Step::Cast(depth)
    }
}

/// Takes the outcome of the cast made with `depth` bounces left and decides
/// how the path goes on.
pub fn advance(depth: u64, event: Event) -> (step: Step)
    ensures
        step == next_step(depth, event),
        step matches Step::Cast(left) ==> 0 < left < depth,
{
    if depth == 0 {
        return Step::Finish(Radiance::Black);
    }
    match event {
        Event::Miss => Step::Finish(Radiance::Sky),
        Event::Absorbed => Step::Finish(Radiance::Black),
        Event::Scattered => begin(depth - 1),
    }
}

/// Walks a whole path whose casts are already known, in order. Returns the
/// end of the path, or `None` if the path is still open when the events
/// run out.
pub fn trace(depth: u64, events: &Vec<Event>) -> (path: Option<Path>)
    ensures
        match settle(depth as nat, events@, 0) {
            Some((radiance, bounces)) => path == Some(
                (Path { radiance, bounces: bounces as u64 }),
            ) && bounces <= depth,
            None => path.is_none(),
        },
{
    let mut step = begin(depth);
    let mut at: usize = 0;
    let mut bounces: u64 = 0;
    loop
        invariant
            at <= events.len(),
            bounces + left_of(step) <= depth,
            step is Cast ==> left_of(step) > 0,
            settle(depth as nat, events@, 0) == lifted(
                pending(step, events@, at as nat),
                bounces as nat,
            ),
        decreases left_of(step), events.len() - at,
    {
        match step {
            Step::Finish(radiance) => {
                return Some(Path { radiance, bounces });
            },
            Step::Cast(left) => {
                if at >= events.len() {
                    return None;
                }
                let event = events[at];
                proof {
                    let rest = settle((left - 1) as nat, events@, (at + 1) as nat);
                    assert(settle(left as nat, events@, at as nat) == match event {
                        Event::Miss => Some((Radiance::Sky, 0nat)),
                        Event::Absorbed => Some((Radiance::Black, 0nat)),
                        Event::Scattered => lifted(rest, 1),
                    });
                    assert(settle(0, events@, (at + 1) as nat) == Some((Radiance::Black, 0nat)));
                }
                step = advance(left, event);
                at = at + 1;
                if event == Event::Scattered {
                    bounces = bounces + 1;
                }
            },
        }
    }
}

/// The bounces that a step still allows.
spec fn left_of(step: Step) -> nat {
    match step {
        Step::Finish(_) => 0,
        Step::Cast(left) => left as nat,
    }
}

/// Where a path ends that stands at `step` with `events[at]` as its next
/// event.
spec fn pending(step: Step, events: Seq<Event>, at: nat) -> Option<(Radiance, nat)> {
    match step {
        Step::Finish(radiance) => Some((radiance, 0nat)),
        Step::Cast(left) => settle(left as nat, events, at),
    }
}

/// The end of a path's remainder, counted from the path's start: `bounces`
/// scatterings lie before the remainder.
spec fn lifted(rest: Option<(Radiance, nat)>, bounces: nat) -> Option<(Radiance, nat)> {
    match rest {
        Some((radiance, more)) => Some((radiance, more + bounces)),
        None => None,
    }
}

/// A path never scatters more often than its budget allows, and a path that
/// used up its whole budget carries no light.
pub proof fn lemma_bounces_within_budget(depth: nat, events: Seq<Event>, at: nat)
    ensures
        settle(depth, events, at) matches Some((radiance, bounces)) ==> bounces <= depth && (bounces
            == depth ==> radiance == Radiance::Black),
    decreases depth,
{
    if depth > 0 && at < events.len() && events[at as int] == Event::Scattered {
        lemma_bounces_within_budget((depth - 1) as nat, events, at + 1);
    }
}

/// A path ends once as many events are known as it has bounces to spend:
/// the integrator never needs more casts than its budget.
pub proof fn lemma_budget_ends_path(depth: nat, events: Seq<Event>, at: nat)
    requires
        at + depth <= events.len(),
    ensures
        settle(depth, events, at).is_some(),
    decreases depth,
{
    if depth > 0 && events[at as int] == Event::Scattered {
        lemma_budget_ends_path((depth - 1) as nat, events, at + 1);
    }
}

/// Between mirrors that scatter every ray, a path ends after exactly as many
/// bounces as its budget holds, and ends in black.
pub proof fn lemma_endless_scattering_ends_black(depth: nat, events: Seq<Event>, at: nat)
    requires
        at + depth <= events.len(),
        forall|i: int| at <= i < at + depth ==> events[i] == Event::Scattered,
    ensures
        settle(depth, events, at) == Some((Radiance::Black, depth)),
    decreases depth,
{
    if depth > 0 {
        lemma_endless_scattering_ends_black((depth - 1) as nat, events, at + 1);
    }
}

/// A path that ends before its budget is spent ends at the first event that
/// is not a scattering: in the sky after a miss, in black after an
/// absorption.
pub proof fn lemma_early_end_is_first_break(depth: nat, events: Seq<Event>, at: nat)
    ensures
        settle(depth, events, at) matches Some((radiance, bounces)) ==> {
            &&& forall|i: int| at <= i < at + bounces ==> events[i] == Event::Scattered
            &&& bounces < depth ==> {
                &&& at + bounces < events.len()
                &&& events[(at + bounces) as int] != Event::Scattered
                &&& (radiance == Radiance::Sky <==> events[(at + bounces) as int] == Event::Miss)
            }
        },
    decreases depth,
{
    if depth > 0 && at < events.len() && events[at as int] == Event::Scattered {
        lemma_early_end_is_first_break((depth - 1) as nat, events, at + 1);
    }
}

} // verus!
