use lau_observation_control::agent_loop::{
    decompose, plan_step, AgentStep, LoopProgress, StepPlan, StepWork,
};

#[test]
fn test_step_order() {
    assert_eq!(AgentStep::Observe.next(), AgentStep::Represent);
    assert_eq!(AgentStep::Reflect.next(), AgentStep::Observe);
}

#[test]
fn test_all_steps() {
    let all = AgentStep::all();
    assert_eq!(all.len(), 9);
    assert_eq!(all[0], AgentStep::Observe);
    assert_eq!(all[8], AgentStep::Reflect);
}

#[test]
fn test_step_names() {
    assert_eq!(AgentStep::Observe.name(), "observe");
    assert_eq!(AgentStep::Control.name(), "control");
    assert_eq!(AgentStep::Reflect.name(), "reflect");
}

#[test]
fn test_all_names_in_order() {
    let names: Vec<&str> = AgentStep::all().iter().map(|s| s.name()).collect();
    assert_eq!(
        names,
        vec![
            "observe", "represent", "decompose", "optimize", "classify", "predict", "control",
            "adapt", "reflect"
        ]
    );
}

#[test]
fn test_all_follows_next() {
    let all = AgentStep::all();
    for i in 0..9 {
        assert_eq!(all[i].next(), all[(i + 1) % 9]);
    }
}

#[test]
fn test_nine_moves_return_every_step() {
    for start in AgentStep::all() {
        let mut s = start;
        for k in 1..=9 {
            s = s.next();
            if k < 9 {
                assert_ne!(s, start);
            }
        }
        assert_eq!(s, start);
    }
}

#[test]
fn test_progress_full_cycle() {
    let mut p = LoopProgress::new();
    assert_eq!(p.step, AgentStep::Observe);
    assert_eq!(p.iteration, 0);
    let mut done = Vec::new();
    for _ in 0..9 {
        done.push(p.advance());
    }
    assert_eq!(done, AgentStep::all().to_vec());
    assert_eq!(p.step, AgentStep::Observe);
    assert_eq!(p.iteration, 1);
}

#[test]
fn test_progress_counts_cycle_at_reflect_only() {
    let mut p = LoopProgress { step: AgentStep::Adapt, iteration: 4 };
    assert_eq!(p.advance(), AgentStep::Adapt);
    assert_eq!(p.iteration, 4);
    assert_eq!(p.advance(), AgentStep::Reflect);
    assert_eq!(p.iteration, 5);
    assert_eq!(p.step, AgentStep::Observe);
}

#[test]
fn test_plan_observe_with_input() {
    let p = plan_step(AgentStep::Observe, true, false, false, false);
    assert_eq!(p, StepPlan { store_input: true, work: Some(StepWork::ObserveWorld) });
}

#[test]
fn test_plan_observe_without_anything() {
    let p = plan_step(AgentStep::Observe, false, false, false, false);
    assert_eq!(p, StepPlan { store_input: false, work: None });
}

#[test]
fn test_plan_observe_held_world() {
    let p = plan_step(AgentStep::Observe, false, true, false, false);
    assert_eq!(p, StepPlan { store_input: false, work: Some(StepWork::ObserveWorld) });
}

#[test]
fn test_plan_input_ignored_after_observe() {
    let p = plan_step(AgentStep::Represent, true, true, true, true);
    assert_eq!(p, StepPlan { store_input: false, work: None });
}

#[test]
fn test_plan_belief_steps_need_belief() {
    for step in [AgentStep::Decompose, AgentStep::Classify, AgentStep::Predict, AgentStep::Control] {
        assert_eq!(plan_step(step, false, true, false, true).work, None);
    }
    assert_eq!(plan_step(AgentStep::Decompose, false, false, true, false).work, Some(StepWork::DecomposeBelief));
    assert_eq!(plan_step(AgentStep::Classify, false, false, true, false).work, Some(StepWork::ClassifyBelief));
    assert_eq!(plan_step(AgentStep::Predict, false, false, true, false).work, Some(StepWork::PredictBelief));
    assert_eq!(plan_step(AgentStep::Control, false, false, true, false).work, Some(StepWork::ActuateBelief));
}

#[test]
fn test_plan_optimize_always() {
    assert_eq!(plan_step(AgentStep::Optimize, false, false, false, false).work, Some(StepWork::ComputeGain));
}

#[test]
fn test_plan_adapt_needs_prediction_and_belief() {
    assert_eq!(plan_step(AgentStep::Adapt, false, true, true, false).work, None);
    assert_eq!(plan_step(AgentStep::Adapt, false, true, false, true).work, None);
    assert_eq!(plan_step(AgentStep::Adapt, false, false, true, true).work, Some(StepWork::MeasureAdaptation));
}

#[test]
fn test_plan_reflect_reobserves_held_world() {
    assert_eq!(plan_step(AgentStep::Reflect, false, true, false, false).work, Some(StepWork::ObserveWorld));
    assert_eq!(plan_step(AgentStep::Reflect, true, false, true, true).work, None);
}

#[test]
fn test_decompose_two_dims() {
    let subs = decompose(&[3.0f64, 1.0], 0.0);
    assert_eq!(subs, vec![vec![3.0, 0.0], vec![0.0, 1.0]]);
}

#[test]
fn test_decompose_empty() {
    let subs: Vec<Vec<i32>> = decompose(&[], 0);
    assert!(subs.is_empty());
}
