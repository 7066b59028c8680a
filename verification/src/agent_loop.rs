//! The nine-step agent loop, the trace of the identity morphism tr(id_𝒞).
//!
//! One pass through the nine steps is one full cycle through the adjunction;
//! the loop then stands at `Observe` again, one iteration further on.
use vstd::prelude::*;

verus! {

/// The nine steps of the agent loop, in loop order.
#[derive(Debug, Clone, Copy, PartialEq, Eq, Structural)]
pub enum AgentStep {
    Observe,
    Represent,
    Decompose,
    Optimize,
    Classify,
    Predict,
    Control,
    Adapt,
    Reflect,
}

/// The number of steps in one cycle of the loop.
pub open spec fn loop_len() -> nat {
    9
}

/// The position of a step in the loop, counted from `Observe`.
pub open spec fn step_index(s: AgentStep) -> nat {
    match s {
        AgentStep::Observe => 0,
        AgentStep::Represent => 1,
        AgentStep::Decompose => 2,
        AgentStep::Optimize => 3,
        AgentStep::Classify => 4,
        AgentStep::Predict => 5,
        AgentStep::Control => 6,
        AgentStep::Adapt => 7,
        AgentStep::Reflect => 8,
    }
}

/// The step at a position of the loop (positions wrap around).
pub open spec fn step_at(i: nat) -> AgentStep {
    let k = i % 9;
    if k == 0 {
        AgentStep::Observe
    } else if k == 1 {
        AgentStep::Represent
    } else if k == 2 {
        AgentStep::Decompose
    } else if k == 3 {
        AgentStep::Optimize
    } else if k == 4 {
        AgentStep::Classify
    } else if k == 5 {
        AgentStep::Predict
    } else if k == 6 {
        AgentStep::Control
    } else if k == 7 {
        AgentStep::Adapt
    } else {
        AgentStep::Reflect
    }
}

/// The step that follows `s`.
pub open spec fn next_step(s: AgentStep) -> AgentStep {
    step_at(step_index(s) + 1)
}

/// The step reached from `s` after `n` moves.
pub open spec fn advance_by(s: AgentStep, n: nat) -> AgentStep
    decreases n,
{
    if n == 0 {
        s
    } else {
        next_step(advance_by(s, (n - 1) as nat))
    }
}

/// The lower-case name of a step.
pub open spec fn step_name(s: AgentStep) -> Seq<char> {
    match s {
        AgentStep::Observe => "observe"@,
        AgentStep::Represent => "represent"@,
        AgentStep::Decompose => "decompose"@,
        AgentStep::Optimize => "optimize"@,
        AgentStep::Classify => "classify"@,
        AgentStep::Predict => "predict"@,
        AgentStep::Control => "control"@,
        AgentStep::Adapt => "adapt"@,
        AgentStep::Reflect => "reflect"@,
    }
}

impl AgentStep {
    /// All nine steps in loop order.
    pub fn all() -> (r: [AgentStep; 9])
        ensures
            forall|i: int| 0 <= i < 9 ==> #[trigger] r@[i] == step_at(i as nat),
    {
        [
            AgentStep::Observe,
            AgentStep::Represent,
            AgentStep::Decompose,
            AgentStep::Optimize,
            AgentStep::Classify,
            AgentStep::Predict,
            AgentStep::Control,
            AgentStep::Adapt,
            AgentStep::Reflect,
        ]
    }

    pub fn name(&self) -> (r: &'static str)
        ensures
            r@ == step_name(*self),
    {
        match self {
            AgentStep::Observe => "observe",
            AgentStep::Represent => "represent",
            AgentStep::Decompose => "decompose",
            AgentStep::Optimize => "optimize",
            AgentStep::Classify => "classify",
            AgentStep::Predict => "predict",
            AgentStep::Control => "control",
            AgentStep::Adapt => "adapt",
            AgentStep::Reflect => "reflect",
        }
    }

    pub fn next(&self) -> (r: AgentStep)
        ensures
            r == next_step(*self),
            step_index(r) == (step_index(*self) + 1) % loop_len(),
    {
        match self {
            AgentStep::Observe => AgentStep::Represent,
            AgentStep::Represent => AgentStep::Decompose,
            AgentStep::Decompose => AgentStep::Optimize,
            AgentStep::Optimize => AgentStep::Classify,
            AgentStep::Classify => AgentStep::Predict,
            AgentStep::Predict => AgentStep::Control,
            AgentStep::Control => AgentStep::Adapt,
            AgentStep::Adapt => AgentStep::Reflect,
            AgentStep::Reflect => AgentStep::Observe,
        }
    }
}

/// Positions and steps correspond one to one.
pub proof fn lemma_step_index_at(s: AgentStep, i: nat)
    ensures
        step_index(s) < loop_len(),
        step_at(step_index(s)) == s,
        step_index(step_at(i)) == i % loop_len(),
{
}

/// Moving `n` times from `s` lands on the step `n` positions further round the loop.
pub proof fn lemma_advance_by(s: AgentStep, n: nat)
    ensures
        advance_by(s, n) == step_at(step_index(s) + n),
    decreases n,
{
    if n > 0 {
        lemma_advance_by(s, (n - 1) as nat);
        let k = (step_index(s) + n - 1) as nat;
        lemma_step_index_at(s, k);
        assert((k % 9 + 1) % 9 == (k + 1) % 9) by {
            vstd::arithmetic::div_mod::lemma_add_mod_noop(k as int, 1, 9);
        }
    }
}

/// The loop is a cycle of length nine: nine moves return every step to itself,
/// and fewer moves never do.
pub proof fn lemma_loop_is_cycle(s: AgentStep)
    ensures
        advance_by(s, loop_len()) == s,
        forall|n: nat| 0 < n < loop_len() ==> #[trigger] advance_by(s, n) != s,
{
    lemma_advance_by(s, 9);
    lemma_step_index_at(s, 0);
    assert forall|n: nat| 0 < n < loop_len() implies #[trigger] advance_by(s, n) != s by {
        lemma_advance_by(s, n);
        lemma_step_index_at(s, step_index(s) + n);
    }
}

/// `all()` lists each step exactly once, and each entry is followed by its successor.
pub proof fn lemma_all_in_loop_order(r: [AgentStep; 9])
    requires
        forall|i: int| 0 <= i < 9 ==> #[trigger] r@[i] == step_at(i as nat),
    ensures
        forall|s: AgentStep| #[trigger] r@[step_index(s) as int] == s,
        forall|i: int, j: int| 0 <= i < j < 9 ==> r@[i] != r@[j],
        forall|i: int| 0 <= i < 8 ==> #[trigger] next_step(r@[i]) == r@[i + 1],
        next_step(r@[8]) == r@[0],
{
    assert forall|s: AgentStep| #[trigger] r@[step_index(s) as int] == s by {
        lemma_step_index_at(s, 0);
    }
    assert forall|i: int, j: int| 0 <= i < j < 9 implies r@[i] != r@[j] by {
        lemma_step_index_at(r@[i], i as nat);
        lemma_step_index_at(r@[j], j as nat);
    }
}

/// Where the loop stands: the step it performs next and the number of
/// completed cycles.
#[derive(Debug, Clone, Copy, PartialEq, Eq, Structural)]
pub struct LoopProgress {
    pub step: AgentStep,
    pub iteration: u64,
}

/// The progress after `n` steps, counting a cycle each time `Reflect` is left.
pub open spec fn progress_after(p: LoopProgress, n: nat) -> (AgentStep, int)
    decreases n,
{
    if n == 0 {
        (p.step, p.iteration as int)
    } else {
        let (s, it) = progress_after(p, (n - 1) as nat);
        (next_step(s), if s == AgentStep::Reflect { it + 1 } else { it })
    }
}

impl LoopProgress {
    /// A fresh loop: at `Observe`, no cycle completed.
    pub fn new() -> (p: LoopProgress)
        ensures
            p.step == AgentStep::Observe,
            p.iteration == 0,
    {
        LoopProgress { step: AgentStep::Observe, iteration: 0 }
    }

    /// Performs the bookkeeping of one step: returns the step performed, moves
    /// to the next one, and counts a cycle when `Reflect` is performed.
    pub fn advance(&mut self) -> (done: AgentStep)
        requires
            old(self).step == AgentStep::Reflect ==> old(self).iteration < u64::MAX,
        ensures
            done == old(self).step,
            final(self).step == next_step(old(self).step),
            final(self).iteration == if old(self).step == AgentStep::Reflect {
                old(self).iteration + 1
            } else {
                old(self).iteration as int
            },
            (final(self).step, final(self).iteration as int) == progress_after(*old(self), 1),
    {
        proof {
            reveal_with_fuel(progress_after, 2);
        }
        let current = self.step;
        if current == AgentStep::Reflect {
            self.iteration = self.iteration + 1;
        }
        self.step = current.next();
        current
    }
}

/// Steps and counted cycles after `n` steps: the step `n` positions further round
/// the loop, and one cycle for every time `Reflect` was passed.
pub proof fn lemma_progress_after(p: LoopProgress, n: nat)
    ensures
        progress_after(p, n).0 == step_at(step_index(p.step) + n),
        progress_after(p, n).1 == p.iteration + (step_index(p.step) + n) / 9,
    decreases n,
{
    let i = step_index(p.step);
    lemma_step_index_at(p.step, 0);
    if n > 0 {
        let m = (n - 1) as nat;
        lemma_progress_after(p, m);
        let k = i + m;
        lemma_step_index_at(p.step, k);
        vstd::arithmetic::div_mod::lemma_fundamental_div_mod(k as int, 9);
        vstd::arithmetic::div_mod::lemma_fundamental_div_mod((k + 1) as int, 9);
        assert((k % 9 + 1) % 9 == (k + 1) % 9) by {
            vstd::arithmetic::div_mod::lemma_add_mod_noop(k as int, 1, 9);
        }
        if k % 9 == 8 {
            assert((k + 1) / 9 == k / 9 + 1);
        } else {
            assert((k + 1) / 9 == k / 9);
        }
    }
}

/// One full cycle of nine steps, from any step, brings the loop back to that
/// step with exactly one more completed cycle.
pub proof fn lemma_full_cycle(p: LoopProgress)
    ensures
        progress_after(p, loop_len()) == (p.step, p.iteration + 1),
{
    lemma_progress_after(p, 9);
    lemma_step_index_at(p.step, 0);
    let i = step_index(p.step);
    assert((i + 9) / 9 == 1);
    assert((i + 9) % 9 == i);
}

/// The work that a step of the loop carries out on the loop's state.
#[derive(Debug, Clone, Copy, PartialEq, Eq, Structural)]
pub enum StepWork {
    /// Apply the observation functor to the world state.
    ObserveWorld,
    /// Split the belief into one sub-problem per dimension.
    DecomposeBelief,
    /// Compute the LQR gain.
    ComputeGain,
    /// Label each dimension of the belief.
    ClassifyBelief,
    /// Propagate the belief through the dynamics.
    PredictBelief,
    /// Actuate the belief into a new world state.
    ActuateBelief,
    /// Measure the prediction error.
    MeasureAdaptation,
}

/// What one step of the loop does, given what the loop holds.
#[derive(Debug, Clone, Copy, PartialEq, Eq, Structural)]
pub struct StepPlan {
    /// Whether the world state handed in replaces the one held.
    pub store_input: bool,
    /// The work carried out, if any.
    pub work: Option<StepWork>,
}

/// The plan of a step: each step works only on what the loop already holds.
pub open spec fn step_plan(
    step: AgentStep,
    has_input: bool,
    has_world: bool,
    has_internal: bool,
    has_prediction: bool,
) -> StepPlan {
    let work = match step {
        AgentStep::Observe => if has_input || has_world {
            Some(StepWork::ObserveWorld)
        } else {
            None
        },
        AgentStep::Represent => None,
        AgentStep::Decompose => if has_internal {
            Some(StepWork::DecomposeBelief)
        } else {
            None
        },
        AgentStep::Optimize => Some(StepWork::ComputeGain),
        AgentStep::Classify => if has_internal {
            Some(StepWork::ClassifyBelief)
        } else {
            None
        },
        AgentStep::Predict => if has_internal {
            Some(StepWork::PredictBelief)
        } else {
            None
        },
        AgentStep::Control => if has_internal {
            Some(StepWork::ActuateBelief)
        } else {
            None
        },
        AgentStep::Adapt => if has_prediction && has_internal {
            Some(StepWork::MeasureAdaptation)
        } else {
            None
        },
        AgentStep::Reflect => if has_world {
            Some(StepWork::ObserveWorld)
        } else {
            None
        },
    };
    StepPlan { store_input: step == AgentStep::Observe && has_input, work }
}

/// At `Observe` a world state handed in is always stored, whatever the loop
/// holds, and is then observed; with no input the held world, if any, is
/// observed. No other step stores an input.
pub proof fn lemma_plan_observe()
    ensures
        forall|w: bool, n: bool, p: bool|
            #![trigger step_plan(AgentStep::Observe, true, w, n, p)]
            step_plan(AgentStep::Observe, true, w, n, p).store_input
                && step_plan(AgentStep::Observe, true, w, n, p).work == Some(
                StepWork::ObserveWorld,
            ),
        forall|n: bool, p: bool|
            #![trigger step_plan(AgentStep::Observe, false, true, n, p)]
            !step_plan(AgentStep::Observe, false, true, n, p).store_input
                && step_plan(AgentStep::Observe, false, true, n, p).work == Some(
                StepWork::ObserveWorld,
            ),
        forall|n: bool, p: bool|
            #![trigger step_plan(AgentStep::Observe, false, false, n, p)]
            step_plan(AgentStep::Observe, false, false, n, p).work is None,
        forall|s: AgentStep, i: bool, w: bool, n: bool, p: bool|
            s != AgentStep::Observe ==> !(#[trigger] step_plan(s, i, w, n, p)).store_input,
{
}

/// The steps that work on the belief (`Decompose`, `Classify`, `Predict`,
/// `Control`) do their work exactly when a belief is held, whatever else the
/// loop holds; `Optimize` always computes the gain and `Represent` does nothing.
pub proof fn lemma_plan_belief_steps()
    ensures
        forall|i: bool, w: bool, p: bool|
            #![trigger step_plan(AgentStep::Control, i, w, true, p)]
            step_plan(AgentStep::Control, i, w, true, p).work == Some(StepWork::ActuateBelief)
                && step_plan(AgentStep::Decompose, i, w, true, p).work == Some(
                StepWork::DecomposeBelief,
            ) && step_plan(AgentStep::Classify, i, w, true, p).work == Some(
                StepWork::ClassifyBelief,
            ) && step_plan(AgentStep::Predict, i, w, true, p).work == Some(
                StepWork::PredictBelief,
            ),
        forall|i: bool, w: bool, p: bool|
            #![trigger step_plan(AgentStep::Control, i, w, false, p)]
            step_plan(AgentStep::Control, i, w, false, p).work is None
                && step_plan(AgentStep::Decompose, i, w, false, p).work is None
                && step_plan(AgentStep::Classify, i, w, false, p).work is None
                && step_plan(AgentStep::Predict, i, w, false, p).work is None,
        forall|i: bool, w: bool, n: bool, p: bool|
            #![trigger step_plan(AgentStep::Optimize, i, w, n, p)]
            step_plan(AgentStep::Optimize, i, w, n, p).work == Some(StepWork::ComputeGain)
                && step_plan(AgentStep::Represent, i, w, n, p).work is None,
{
}

/// `Adapt` measures the prediction error exactly when both a prediction and a
/// belief are held, whatever world the loop holds.
pub proof fn lemma_plan_adapt()
    ensures
        forall|i: bool, w: bool|
            #![trigger step_plan(AgentStep::Adapt, i, w, true, true)]
            step_plan(AgentStep::Adapt, i, w, true, true).work == Some(
                StepWork::MeasureAdaptation,
            ),
        forall|i: bool, w: bool, n: bool, p: bool|
            !(n && p) ==> (#[trigger] step_plan(AgentStep::Adapt, i, w, n, p)).work is None,
{
}

/// `Reflect` re-observes exactly when a world is held, whatever belief and
/// prediction the loop holds, and never takes an input.
pub proof fn lemma_plan_reflect()
    ensures
        forall|i: bool, n: bool, p: bool|
            #![trigger step_plan(AgentStep::Reflect, i, true, n, p)]
            step_plan(AgentStep::Reflect, i, true, n, p).work == Some(StepWork::ObserveWorld),
        forall|i: bool, n: bool, p: bool|
            #![trigger step_plan(AgentStep::Reflect, i, false, n, p)]
            step_plan(AgentStep::Reflect, i, false, n, p).work is None,
{
}

/// Decides what the current step does: `Observe` takes a world state handed in
/// and observes whatever world state the loop then holds; `Reflect` re-observes
/// the world the loop holds; the other steps work on the belief (and, for
/// `Adapt`, the prediction) when the loop holds one; `Optimize` always computes
/// the gain.
pub fn plan_step(
    step: AgentStep,
    has_input: bool,
    has_world: bool,
    has_internal: bool,
    has_prediction: bool,
) -> (p: StepPlan)
    ensures
        p == step_plan(step, has_input, has_world, has_internal, has_prediction),
        p.store_input <==> (step == AgentStep::Observe && has_input),
        step == AgentStep::Observe ==> p.work == if has_input || has_world {
            Some(StepWork::ObserveWorld)
        } else {
            None::<StepWork>
        },
        step == AgentStep::Control && has_internal ==> p.work == Some(StepWork::ActuateBelief),
        step == AgentStep::Adapt && has_prediction && has_internal ==> p.work == Some(
            StepWork::MeasureAdaptation,
        ),
        step == AgentStep::Reflect && has_world ==> p.work == Some(StepWork::ObserveWorld),
{
    proof {
        lemma_plan_observe();
        lemma_plan_belief_steps();
        lemma_plan_adapt();
        lemma_plan_reflect();
    }
    let work = match step {
        AgentStep::Observe => {
            if has_input || has_world {
                Some(StepWork::ObserveWorld)
            } else {
                None
            }
        },
        AgentStep::Represent => None,
        AgentStep::Decompose => {
            if has_internal {
                Some(StepWork::DecomposeBelief)
            } else {
                None
            }
        },
        AgentStep::Optimize => Some(StepWork::ComputeGain),
        AgentStep::Classify => {
            if has_internal {
                Some(StepWork::ClassifyBelief)
            } else {
                None
            }
        },
        AgentStep::Predict => {
            if has_internal {
                Some(StepWork::PredictBelief)
            } else {
                None
            }
        },
        AgentStep::Control => {
            if has_internal {
                Some(StepWork::ActuateBelief)
            } else {
                None
            }
        },
        AgentStep::Adapt => {
            if has_prediction && has_internal {
                Some(StepWork::MeasureAdaptation)
            } else {
                None
            }
        },
        AgentStep::Reflect => {
            if has_world {
                Some(StepWork::ObserveWorld)
            } else {
                None
            }
        },
    };
    let store_input = match step {
        AgentStep::Observe => has_input,
        _ => false,
    };
    StepPlan { store_input, work }
}

/// Splits a belief into one sub-problem per dimension: sub-problem `i` keeps
/// component `i` of the belief and holds `zero` everywhere else.
pub fn decompose<T: Copy>(belief: &[T], zero: T) -> (subs: Vec<Vec<T>>)
    ensures
        subs@.len() == belief@.len(),
        forall|i: int| 0 <= i < belief@.len() ==> #[trigger] subs@[i]@.len() == belief@.len(),
        forall|i: int, j: int|
            0 <= i < belief@.len() && 0 <= j < belief@.len() ==> #[trigger] subs@[i]@[j] == if i
                == j {
                belief@[i]
            } else {
                zero
            },
{
    let n = belief.len();
    let mut subs: Vec<Vec<T>> = Vec::new();
    let mut i: usize = 0;
    while i < n
        invariant
            i <= n == belief@.len(),
            subs@.len() == i,
            forall|k: int| 0 <= k < i ==> #[trigger] subs@[k]@.len() == n,
            forall|k: int, j: int|
                0 <= k < i && 0 <= j < n ==> #[trigger] subs@[k]@[j] == if k == j {
                    belief@[k]
                } else {
                    zero
                },
        decreases n - i,
    {
        let mut v: Vec<T> = Vec::new();
        let mut j: usize = 0;
        while j < n
            invariant
                i < n == belief@.len(),
                j <= n,
                v@.len() == j,
                forall|m: int| 0 <= m < j ==> #[trigger] v@[m] == if i == m {
                    belief@[i as int]
                } else {
                    zero
                },
            decreases n - j,
        {
            if j == i {
                v.push(belief[i]);
            } else {
                v.push(zero);
            }
            j = j + 1;
        }
        subs.push(v);
        i = i + 1;
    }
    subs
}

} // verus!
