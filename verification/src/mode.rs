use vstd::prelude::*;

verus! {

/// Execution fidelity of a timeline run.
#[derive(Debug, Clone, Copy, PartialEq, Eq, Structural)]
pub enum Mode {
    /// One deterministic branch-blended run; procs via the EV accumulator.
    Expected,
    /// `iterations` independent runs seeded off `seed`, pooled.
    MonteCarlo {
        /// Number of independent timeline runs (must be `> 0`).
        iterations: u32,
        /// Master seed.
        seed: u64,
    },
}

/// Why a mode cannot be run.
#[derive(Debug, Clone, Copy, PartialEq, Eq, Structural)]
pub enum ModeError {
    /// `Mode::MonteCarlo` with `iterations == 0`.
    NoIterations,
}

/// Whether `mode` is runnable: every mode is, except a Monte Carlo run of
/// zero iterations.
pub open spec fn mode_is_runnable(mode: Mode) -> bool {
    match mode {
        Mode::Expected => true,
        Mode::MonteCarlo { iterations, .. } => iterations > 0,
    }
}

/// The up-front check a run makes of its mode.
pub fn validate_mode(mode: Mode) -> (r: Result<(), ModeError>)
    ensures
        r is Ok <==> mode_is_runnable(mode),
        r is Err ==> r == Err::<(), ModeError>(ModeError::NoIterations),
        mode is Expected ==> r == Ok::<(), ModeError>(()),
        mode matches Mode::MonteCarlo { iterations, .. } ==> (r == Ok::<(), ModeError>(())
            <==> iterations > 0),
{
    match mode {
        Mode::Expected => Ok(()),
        Mode::MonteCarlo { iterations, .. } => {
            if iterations == 0 {
                Err(ModeError::NoIterations)
            } else {
                Ok(())
            }
        },
    }
}

/// Only a Monte Carlo run of zero iterations is refused: an expected run,
/// and a Monte Carlo run of any positive iteration count under any seed,
/// is runnable.
pub proof fn lemma_only_zero_iterations_is_refused(mode: Mode)
    ensures
        mode is Expected ==> mode_is_runnable(mode),
        mode matches Mode::MonteCarlo { iterations, seed } ==> (mode_is_runnable(mode)
            <==> iterations != 0),
{
}

} // verus!
