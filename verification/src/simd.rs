//! Which floating-point kernel path a process uses.
//!
//! Baseline x86-64 builds cannot assume AVX2/FMA, so there the choice is made
//! at run time and cached: one read per row on the steady state. Builds that
//! already fuse unconditionally, and targets without a fused path, leave no
//! choice. This module decides; the caller keeps the cached state and detects
//! the CPU features.
use vstd::prelude::*;

use vstd::string::StrSliceExecFns;

verus! {

/// What the build leaves open.
#[derive(Debug, Clone, Copy, PartialEq, Eq, Structural)]
pub enum SimdTarget {
    /// Baseline x86-64: kernels with and without AVX2+FMA, chosen at run time.
    RuntimeDispatch,
    /// Multiply-add is fused unconditionally.
    CompileTimeFused,
    /// The target has no fused path at all.
    NoFused,
}

/// The cached decision.
#[derive(Debug, Clone, Copy, PartialEq, Eq, Structural)]
pub enum SimdState {
    /// Not decided yet.
    Uninit,
    /// Take the AVX2+FMA kernels.
    Enabled,
    /// Take the baseline kernels.
    Disabled,
}

/// What the process can detect: the value of the override variable
/// `SP_MATMUL_RS_FORCE_BASELINE`, if set, and the CPU features.
#[derive(Debug, Clone, Copy)]
pub struct SimdFacts<'a> {
    pub force_baseline: Option<&'a str>,
    pub avx2: bool,
    pub fma: bool,
}

/// Does the override variable force the baseline? Any non-empty value but `0` does.
pub open spec fn is_forced(force_baseline: Option<&str>) -> bool {
    force_baseline matches Some(v) && v@.len() > 0 && v@ != seq!['0']
}

/// Does the override variable force the baseline?
fn forces_baseline(force_baseline: Option<&str>) -> (r: bool)
    ensures
        r == is_forced(force_baseline),
{
    match force_baseline {
        None => false,
        Some(v) => {
            let n: usize = v.unicode_len();
            if n == 0 {
                false
            } else if n == 1 {
                let c: char = v.get_char(0);
                proof {
                    if c == '0' {
                        assert(v@ =~= seq!['0']);
                    }
                }
                c != '0'
            } else {
                true
            }
        },
    }
}

/// Decide between the kernels from what was detected.
fn init(facts: SimdFacts<'_>) -> (r: SimdState)
    ensures
        r == if !is_forced(facts.force_baseline) && facts.avx2 && facts.fma {
            SimdState::Enabled
        } else {
            SimdState::Disabled
        },
{
    if !forces_baseline(facts.force_baseline) && facts.avx2 && facts.fma {
        SimdState::Enabled
    } else {
        SimdState::Disabled
    }
}

/// The state once the decision has been asked for.
pub open spec fn decided(state: SimdState, facts: SimdFacts<'_>) -> SimdState {
    if state == SimdState::Uninit {
        if !is_forced(facts.force_baseline) && facts.avx2 && facts.fma {
            SimdState::Enabled
        } else {
            SimdState::Disabled
        }
    } else {
        state
    }
}

/// Should the dispatching kernels take the AVX2+FMA path? Returns the decision
/// and the state to keep; a decision once made stands.
pub fn avx2_fma_enabled(state: SimdState, facts: SimdFacts<'_>) -> (r: (bool, SimdState))
    ensures
        r.1 == decided(state, facts),
        r.0 == (decided(state, facts) == SimdState::Enabled),
{
    match state {
        SimdState::Enabled => (true, SimdState::Enabled),
        SimdState::Disabled => (false, SimdState::Disabled),
        SimdState::Uninit => {
            let s = init(facts);
            (s == SimdState::Enabled, s)
        },
    }
}

/// Test-only override of the cached decision: the state to keep. `true` forces
/// the baseline kernels; `false` clears the cache so the next call re-detects.
/// Without run-time dispatch nothing changes.
pub fn force_simd_baseline_for_tests(target: SimdTarget, state: SimdState, on: bool) -> (r:
    SimdState)
    ensures
        r == if target != SimdTarget::RuntimeDispatch {
            state
        } else if on {
            SimdState::Disabled
        } else {
            SimdState::Uninit
        },
{
    match target {
        SimdTarget::RuntimeDispatch => if on {
            SimdState::Disabled
        } else {
            SimdState::Uninit
        },
        _ => state,
    }
}

/// Which floating-point kernel path this process uses: `"avx2+fma"` (chosen at
/// run time), `"compile-time"` (fused unconditionally) or `"baseline"`
/// (detection failed, disabled by the override variable, or no fused path).
/// Also returns the state to keep.
pub fn runtime_simd_label(target: SimdTarget, state: SimdState, facts: SimdFacts<'_>) -> (r: (
    &'static str,
    SimdState,
))
    ensures
        r.0@ == match target {
            SimdTarget::RuntimeDispatch => if decided(state, facts) == SimdState::Enabled {
                "avx2+fma"@
            } else {
                "baseline"@
            },
            SimdTarget::CompileTimeFused => "compile-time"@,
            SimdTarget::NoFused => "baseline"@,
        },
        r.1 == if target == SimdTarget::RuntimeDispatch {
            decided(state, facts)
        } else {
            state
        },
{
    match target {
        SimdTarget::RuntimeDispatch => {
            let (enabled, kept): (bool, SimdState) = avx2_fma_enabled(state, facts);
            if enabled {
                ("avx2+fma", kept)
            } else {
                ("baseline", kept)
            }
        },
        SimdTarget::CompileTimeFused => ("compile-time", state),
        SimdTarget::NoFused => ("baseline", state),
    }
}

/// A decision once made stands, whatever is detected later.
pub proof fn law_decision_stands(
    state: SimdState,
    first: SimdFacts<'_>,
    later: SimdFacts<'_>,
)
    ensures
        decided(decided(state, first), later) == decided(state, first),
{
}

} // verus!
