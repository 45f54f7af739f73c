use vstd::prelude::*;

verus! {

/// What the run loop does next.
#[derive(Clone, Copy, Debug, PartialEq, Eq, Structural)]
pub enum Action {
    /// Run one more generation.
    RunGeneration,
    /// Stop and hand the results to the reporting collaborators.
    Finish,
}

/// The run loop's decision at a generation boundary: finish when a stop was
/// requested, when the global optimum was reached, or when the generation
/// counter cannot advance any more; otherwise run another generation.
pub fn next_action(stop_requested: bool, optimum_reached: bool, total_generations: i64) -> (a: Action)
    ensures
        a == Action::Finish <==> (stop_requested || optimum_reached || total_generations == i64::MAX),
        a == Action::RunGeneration <==> !(stop_requested || optimum_reached || total_generations
            == i64::MAX),
{
    if stop_requested || optimum_reached || total_generations == i64::MAX {
        Action::Finish
    } else {
        Action::RunGeneration
    }
}

} // verus!
