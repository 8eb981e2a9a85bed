use earworm::model::{LoopId, SongId};
use earworm::runner::{Pace, Plan, PlanId, PlanRunner, PlanStep, RepMode, RepSpec};
use earworm::tempo::{oscillate_high, TempoCurve};

type Curve = TempoCurve<f64>;

/// Playback rate for a 0-based rep, clamped to the engine's range.
fn rate_for_rep(c: &Curve, rep: u32) -> f64 {
    let raw = match *c {
        TempoCurve::Dwell { rate } => rate,
        TempoCurve::Ladder { start, step, target } => (start + step * rep as f64).min(target),
        TempoCurve::Oscillate { low, high, period } => {
            if oscillate_high(rep, period) {
                high
            } else {
                low
            }
        }
    };
    raw.clamp(0.25, 2.0)
}

type Step = PlanStep<Curve, f64>;

fn plan(steps: Vec<Step>) -> Plan<Curve, f64> {
    Plan { id: PlanId(1), song_id: SongId(1), name: "p".into(), steps }
}

fn rate(p: &Plan<Curve, f64>, s: &RepSpec<f64>) -> f64 {
    match s.pace {
        Pace::Original => 1.0,
        Pace::Fixed(r) => r,
        Pace::Curve(k) => match &p.steps[s.step_idx] {
            PlanStep::PlayReps { curve, .. } | PlanStep::Rotation { curve, .. } => rate_for_rep(curve, k),
            _ => unreachable!(),
        },
    }
}

fn drain(p: Plan<Curve, f64>) -> Vec<(RepSpec<f64>, f64)> {
    let mut r = PlanRunner::new(p.clone());
    let mut out = Vec::new();
    while let Some(spec) = r.current() {
        out.push((spec, rate(&p, &spec)));
        r.advance();
    }
    out
}

#[test]
fn listen_first_yields_listen_reps() {
    let reps = drain(plan(vec![PlanStep::ListenFirst { loop_id: LoopId(7), reps: 2 }]));
    assert_eq!(reps.len(), 2);
    assert!(reps.iter().all(|(s, _)| s.mode == RepMode::Listen && s.loop_id == LoopId(7)));
    assert!(reps.iter().all(|(_, r)| *r == 1.0));
    assert_eq!(reps[1].0.rep_idx, 1);
}

#[test]
fn play_reps_apply_curve_per_rep() {
    let reps = drain(plan(vec![PlanStep::PlayReps {
        loop_id: LoopId(1),
        reps: 3,
        curve: TempoCurve::Ladder { start: 0.6, step: 0.1, target: 1.0 },
    }]));
    let rates: Vec<f64> = reps.iter().map(|(_, r)| *r).collect();
    let expected = [0.6, 0.7, 0.8];
    assert_eq!(rates.len(), 3);
    for (got, want) in rates.iter().zip(expected) {
        assert!((got - want).abs() < 1e-12, "{got} vs {want}");
    }
}

#[test]
fn steps_run_in_sequence() {
    let reps = drain(plan(vec![
        PlanStep::ListenFirst { loop_id: LoopId(1), reps: 1 },
        PlanStep::PlayReps { loop_id: LoopId(1), reps: 1, curve: TempoCurve::Dwell { rate: 0.9 } },
    ]));
    assert_eq!(reps.len(), 2);
    assert_eq!(reps[0].0.mode, RepMode::Listen);
    assert_eq!(reps[1].0.mode, RepMode::Play);
    assert_eq!(reps[1].0.step_idx, 1);
}

#[test]
fn rotation_interleaves_loops_round_robin() {
    let reps = drain(plan(vec![PlanStep::Rotation {
        loop_ids: vec![LoopId(1), LoopId(2), LoopId(3)],
        rounds: 2,
        reps_per_visit: 1,
        curve: TempoCurve::Dwell { rate: 0.8 },
    }]));
    let ids: Vec<i64> = reps.iter().map(|(s, _)| s.loop_id.0).collect();
    assert_eq!(ids, vec![1, 2, 3, 1, 2, 3]);
}

#[test]
fn rotation_curve_advances_per_visit_to_same_loop() {
    let reps = drain(plan(vec![PlanStep::Rotation {
        loop_ids: vec![LoopId(1), LoopId(2)],
        rounds: 2,
        reps_per_visit: 2,
        curve: TempoCurve::Ladder { start: 0.6, step: 0.1, target: 1.0 },
    }]));
    let loop1: Vec<f64> = reps.iter().filter(|(s, _)| s.loop_id == LoopId(1)).map(|(_, r)| *r).collect();
    let expected = [0.6, 0.6, 0.7, 0.7];
    assert_eq!(loop1.len(), 4);
    for (got, want) in loop1.iter().zip(expected) {
        assert!((got - want).abs() < 1e-12, "{got} vs {want}");
    }
}

#[test]
fn recall_test_alternates_play_and_silent() {
    let reps = drain(plan(vec![PlanStep::RecallTest { loop_id: LoopId(5), alternations: 2, rate: 1.0 }]));
    let modes: Vec<RepMode> = reps.iter().map(|(s, _)| s.mode).collect();
    assert_eq!(modes, vec![RepMode::Play, RepMode::RecallSilent, RepMode::Play, RepMode::RecallSilent]);
}

#[test]
fn skip_step_jumps_to_next_step() {
    let mut r = PlanRunner::new(plan(vec![
        PlanStep::ListenFirst { loop_id: LoopId(1), reps: 10 },
        PlanStep::ListenFirst { loop_id: LoopId(2), reps: 1 },
    ]));
    r.advance();
    r.skip_step();
    assert_eq!(r.current().unwrap().loop_id, LoopId(2));
    r.advance();
    assert!(r.current().is_none());
}

#[test]
fn empty_plan_is_immediately_finished() {
    let r: PlanRunner<Curve, f64> = PlanRunner::new(plan(vec![]));
    assert!(r.current().is_none());
}

#[test]
fn empty_rotation_step_is_skipped() {
    let reps = drain(plan(vec![PlanStep::Rotation {
        loop_ids: vec![],
        rounds: 3,
        reps_per_visit: 1,
        curve: TempoCurve::Dwell { rate: 0.8 },
    }]));
    assert!(reps.is_empty());
}

#[test]
fn drain_yields_the_sum_of_step_rep_counts() {
    let reps = drain(plan(vec![
        PlanStep::ListenFirst { loop_id: LoopId(1), reps: 0 },
        PlanStep::RecallTest { loop_id: LoopId(2), alternations: 3, rate: 0.9 },
        PlanStep::Rotation {
            loop_ids: vec![LoopId(3), LoopId(4)],
            rounds: 2,
            reps_per_visit: 3,
            curve: TempoCurve::Dwell { rate: 0.8 },
        },
    ]));
    assert_eq!(reps.len(), 6 + 12);
    assert_eq!(reps[0].1, 0.9);
}

#[test]
fn finished_runner_ignores_advance_and_skip() {
    let mut r = PlanRunner::new(plan(vec![PlanStep::ListenFirst { loop_id: LoopId(1), reps: 1 }]));
    r.advance();
    assert!(r.current().is_none());
    r.advance();
    r.skip_step();
    assert!(r.current().is_none());
}

#[test]
fn dwell_is_constant() {
    let c = TempoCurve::Dwell { rate: 0.9 };
    assert_eq!(rate_for_rep(&c, 0), 0.9);
    assert_eq!(rate_for_rep(&c, 99), 0.9);
}

#[test]
fn ladder_climbs_and_clamps_at_target() {
    let c = TempoCurve::Ladder { start: 0.6, step: 0.1, target: 0.9 };
    assert_eq!(rate_for_rep(&c, 0), 0.6);
    assert_eq!(rate_for_rep(&c, 2), 0.8);
    assert_eq!(rate_for_rep(&c, 3), 0.9);
    assert_eq!(rate_for_rep(&c, 50), 0.9);
}

#[test]
fn oscillate_touches_high_every_period() {
    let c = TempoCurve::Oscillate { low: 0.7, high: 1.0, period: 3 };
    assert_eq!(rate_for_rep(&c, 0), 0.7);
    assert_eq!(rate_for_rep(&c, 1), 0.7);
    assert_eq!(rate_for_rep(&c, 2), 1.0);
    assert_eq!(rate_for_rep(&c, 5), 1.0);
}

#[test]
fn oscillate_period_zero_treated_as_one() {
    let c = TempoCurve::Oscillate { low: 0.7, high: 1.0, period: 0 };
    assert_eq!(rate_for_rep(&c, 0), 1.0);
    assert!(oscillate_high(7, 0));
    assert!(oscillate_high(7, 1));
    assert!(!oscillate_high(7, 3));
}

#[test]
fn rates_clamped_to_engine_range() {
    let c = TempoCurve::Dwell { rate: 5.0 };
    assert_eq!(rate_for_rep(&c, 0), 2.0);
    let c = TempoCurve::Ladder { start: 0.1, step: 0.0, target: 0.1 };
    assert_eq!(rate_for_rep(&c, 0), 0.25);
}
