//! When a light path ends. A path starts with a depth budget; each scattered
//! ray spends one unit of it. The path ends when the budget is spent (the
//! sample is black: no energy is invented), when the ray escapes to the sky
//! (the sample takes the sky's colour) or when a surface absorbs it (black).
use vstd::prelude::*;

verus! {

/// How a light path ended.
#[derive(Clone, Copy, Debug, PartialEq, Eq, Structural)]
pub enum PathEnd {
    /// The depth budget ran out before the path found light.
    Exhausted,
    /// The ray met nothing and takes the sky's colour.
    Escaped,
    /// A surface declined to scatter the ray.
    Absorbed,
}

/// What happened to the ray that was traced.
#[derive(Clone, Copy, Debug, PartialEq, Eq, Structural)]
pub enum Bounce {
    /// The ray met nothing in the scene.
    Missed,
    /// The ray met a surface that absorbed it.
    Absorbed,
    /// The ray met a surface that sent a new ray on.
    Scattered,
}

/// Where a light path stands.
#[derive(Clone, Copy, Debug, PartialEq, Eq, Structural)]
pub enum PathState {
    /// A ray is to be traced, with `depth` bounces left (at least one).
    Tracing { depth: u32 },
    /// The path is over.
    Done(PathEnd),
}

/// The state of a path that may still take `depth` bounces.
pub open spec fn spec_path_state(depth: u32) -> PathState {
    if depth == 0 {
        PathState::Done(PathEnd::Exhausted)
    } else {
        PathState::Tracing { depth }
    }
}

/// The colour that a path's end gives is black, whatever the attenuation
/// gathered on the way, for every end but the sky.
pub open spec fn spec_ends_dark(end: PathEnd) -> bool {
    end != PathEnd::Escaped
}

/// The state of a path that may still take `depth` bounces: with none left
/// it is over at once and the sample is black, whatever the scene and ray.
pub fn path_state(depth: u32) -> (r: PathState)
    ensures
        r == spec_path_state(depth),
        depth == 0 ==> r == PathState::Done(PathEnd::Exhausted),
{
    if depth == 0 {
        PathState::Done(PathEnd::Exhausted)
    } else {
        PathState::Tracing { depth }
    }
}

/// The state after a traced ray with `depth` bounces left met `bounce`: a
/// miss ends the path at the sky, an absorption ends it dark, and a scatter
/// goes on with one bounce fewer.
pub fn next_state(depth: u32, bounce: Bounce) -> (r: PathState)
    requires
        depth > 0,
    ensures
        r == match bounce {
            Bounce::Missed => PathState::Done(PathEnd::Escaped),
            Bounce::Absorbed => PathState::Done(PathEnd::Absorbed),
            Bounce::Scattered => spec_path_state((depth - 1) as u32),
        },
{
    match bounce {
        Bounce::Missed => PathState::Done(PathEnd::Escaped),
        Bounce::Absorbed => PathState::Done(PathEnd::Absorbed),
        Bounce::Scattered => path_state(depth - 1),
    }
}

/// Whether a path that ended at `end` gives black.
pub fn ends_dark(end: PathEnd) -> (r: bool)
    ensures
        r == spec_ends_dark(end),
{
    match end {
        PathEnd::Escaped => false,
        _ => true,
    }
}

/// The state reached from `s` when the traced rays meet `bounces` in turn;
/// bounces that come after the path is over change nothing.
pub open spec fn run(s: PathState, bounces: Seq<Bounce>) -> PathState
    decreases bounces.len(),
{
    if bounces.len() == 0 {
        s
    } else {
        match s {
            PathState::Tracing { depth } => run(
                match bounces[0] {
                    Bounce::Missed => PathState::Done(PathEnd::Escaped),
                    Bounce::Absorbed => PathState::Done(PathEnd::Absorbed),
                    Bounce::Scattered => spec_path_state((depth - 1) as u32),
                },
                bounces.drop_first(),
            ),
            PathState::Done(_) => s,
        }
    }
}

/// A path never traces more rays than its depth budget: whatever the rays
/// meet, after `depth` of them the path is over.
pub proof fn lemma_path_ends_within_depth(depth: u32, bounces: Seq<Bounce>)
    requires
        bounces.len() >= depth,
    ensures
        run(spec_path_state(depth), bounces) is Done,
    decreases depth,
{
    if depth > 0 {
        let s = spec_path_state(depth);
        let next = match bounces[0] {
            Bounce::Missed => PathState::Done(PathEnd::Escaped),
            Bounce::Absorbed => PathState::Done(PathEnd::Absorbed),
            Bounce::Scattered => spec_path_state((depth - 1) as u32),
        };
        assert(run(s, bounces) == run(next, bounces.drop_first()));
        if bounces[0] == Bounce::Scattered {
            lemma_path_ends_within_depth((depth - 1) as u32, bounces.drop_first());
        } else {
            lemma_done_stays(next, bounces.drop_first());
        }
    }
}

proof fn lemma_done_stays(s: PathState, bounces: Seq<Bounce>)
    requires
        s is Done,
    ensures
        run(s, bounces) == s,
{
}

} // verus!
