use vstd::prelude::*;

verus! {

/// What a finished path contributes, before the attenuations gathered on the
/// way are applied.
#[derive(Clone, Copy, Debug, PartialEq, Eq, Structural)]
pub enum Shade {
    /// No light: the bounce budget ran out or a material absorbed the ray.
    Black,
    /// The background's colour in the direction of the last ray.
    Sky,
}

/// What became of a ray when it was traced through the scene.
#[derive(Clone, Copy, Debug, PartialEq, Eq, Structural)]
pub enum Outcome {
    /// It met nothing.
    Missed,
    /// It met a surface whose material absorbed it.
    Absorbed,
    /// It met a surface whose material scattered it into a new ray.
    Scattered,
}

/// The next thing a path does.
#[derive(Clone, Copy, Debug, PartialEq, Eq, Structural)]
pub enum PathStep {
    /// The path ends with this shade.
    Finish(Shade),
    /// Trace the current ray with this many bounces left.
    Trace(u32),
}

/// The step of a path with `depth` bounces left: with none left it ends in
/// black, whatever the scene holds; otherwise its ray is traced.
pub open spec fn begin_spec(depth: u32) -> PathStep {
    if depth == 0 {
        PathStep::Finish(Shade::Black)
    } else {
        PathStep::Trace(depth)
    }
}

pub fn begin(depth: u32) -> (r: PathStep)
    ensures
        r == begin_spec(depth),
{
    if depth == 0 {
        PathStep::Finish(Shade::Black)
    } else {
        PathStep::Trace(depth)
    }
}

/// The step after a ray traced with `depth` bounces left: a miss shows the
/// sky, an absorption ends in black, a scattered ray begins again with one
/// bounce fewer (its attenuation multiplies what that path brings back).
pub open spec fn advance_spec(depth: u32, outcome: Outcome) -> PathStep {
    match outcome {
        Outcome::Missed => PathStep::Finish(Shade::Sky),
        Outcome::Absorbed => PathStep::Finish(Shade::Black),
        Outcome::Scattered => begin_spec((depth - 1) as u32),
    }
}

pub fn advance(depth: u32, outcome: Outcome) -> (r: PathStep)
    requires
        depth > 0,
    ensures
        r == advance_spec(depth, outcome),
{
    match outcome {
        Outcome::Missed => PathStep::Finish(Shade::Sky),
        Outcome::Absorbed => PathStep::Finish(Shade::Black),
        Outcome::Scattered => begin(depth - 1),
    }
}

/// Where a path that starts with `depth` bounces and meets `outcomes` in turn
/// has got to after `steps` traces.
pub open spec fn path_after(depth: u32, outcomes: Seq<Outcome>, steps: nat) -> PathStep
    decreases steps,
{
    if steps == 0 {
        begin_spec(depth)
    } else {
        match path_after(depth, outcomes, (steps - 1) as nat) {
            PathStep::Finish(s) => PathStep::Finish(s),
            PathStep::Trace(d) => advance_spec(d, outcomes[steps - 1]),
        }
    }
}

/// A path never traces more rays than its bounce budget: after `depth` traces
/// it has finished, whatever the rays met. While it runs, each trace leaves
/// one bounce fewer.
pub proof fn lemma_path_ends_within_depth(depth: u32, outcomes: Seq<Outcome>, steps: nat)
    ensures
        steps <= depth ==> (path_after(depth, outcomes, steps) is Finish || path_after(
            depth,
            outcomes,
            steps,
        ) == PathStep::Trace((depth - steps) as u32)),
        steps >= depth ==> path_after(depth, outcomes, steps) is Finish,
    decreases steps,
{
    if steps > 0 {
        lemma_path_ends_within_depth(depth, outcomes, (steps - 1) as nat);
    }
}

} // verus!
