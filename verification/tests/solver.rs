use solver::abstraction::{parse_action_set, BlindSummary, GameStateSummary};
use solver::cfr::{Fraction, Frequency};
use solver::fixed::Fixed;
use solver::solver::{
    build_response, determine_iterations, exploitability, SolverEngine, SubgameRequest,
};

fn in_bb(value: Fixed) -> f64 {
    value.micros as f64 / 1_000_000.0
}

fn ratio(fraction: Fraction) -> f64 {
    fraction.numerator as f64 / fraction.denominator as f64
}

fn share(frequency: Frequency) -> f64 {
    frequency.weight as f64 / frequency.total as f64
}

fn summary(pot: i32, big: i32) -> GameStateSummary {
    GameStateSummary {
        pot: Fixed::from_int(pot),
        street: "preflop".into(),
        blinds: BlindSummary { big: Fixed::from_int(big) },
    }
}

fn request(tokens: &[&str], budget_ms: i32, stack: i32) -> SubgameRequest {
    SubgameRequest {
        state_fingerprint: "unit-test".into(),
        game_state: summary(12, 2),
        budget_ms,
        effective_stack_bb: stack,
        action_set: tokens.iter().map(|t| t.to_string()).collect(),
    }
}

#[test]
fn parses_action_set() {
    let summary = GameStateSummary {
        pot: Fixed::from_int(20),
        street: "preflop".into(),
        blinds: BlindSummary { big: Fixed::from_int(2) },
    };
    let specs = parse_action_set(
        &["pot:0.5".to_string(), "all-in".to_string()],
        &summary,
        Fixed::from_int(150),
    );
    assert_eq!(specs.len(), 2);
    assert!((in_bb(specs[0].amount) - 5.0).abs() < f64::EPSILON);
    assert_eq!(specs[1].label, "all-in");
    assert_eq!(in_bb(specs[1].amount), 150.0);
}

#[test]
fn solver_engine_returns_actions() {
    let engine = SolverEngine::new();
    let request = SubgameRequest {
        state_fingerprint: "unit-test".into(),
        game_state: GameStateSummary {
            pot: Fixed::from_int(12),
            street: "preflop".into(),
            blinds: BlindSummary { big: Fixed::from_int(2) },
        },
        budget_ms: 200,
        effective_stack_bb: 120,
        action_set: vec!["pot:0.33".into(), "pot:0.75".into(), "all-in".into()],
    };

    let response = engine.solve(&request);
    assert_eq!(response.source, "subgame");
    assert_eq!(response.actions.len(), 3);
    let total_freq: f64 = response.actions.iter().map(|a| share(a.frequency)).sum();
    assert!(total_freq > 0.0);
}

#[test]
fn solve_reports_exact_strategy() {
    let response = SolverEngine::new().solve(&request(&["pot:0.33", "pot:0.75", "all-in"], 200, 120));
    let labels: Vec<&str> = response.actions.iter().map(|a| a.action_type.as_str()).collect();
    assert_eq!(labels, vec!["pot-0.33", "pot-0.75", "all-in"]);
    // pot 12 chips at a big blind of 2 is 6 bb: 0.33 * 6 = 1.98, 0.75 * 6 = 4.5.
    let amounts: Vec<i64> = response.actions.iter().map(|a| a.amount.micros).collect();
    assert_eq!(amounts, vec![1_980_000, 4_500_000, 120_000_000]);
    let weights: Vec<u64> = response.actions.iter().map(|a| a.frequency.weight).collect();
    assert_eq!(weights, vec![20, 19, 18]);
    assert!(response.actions.iter().all(|a| a.frequency.total == 57));
    // 200 ms grant 20 rounds: regret is 19/20 of 0.1, 0.09, 0.08.
    let regrets: Vec<Fraction> = response.actions.iter().map(|a| a.regret).collect();
    assert_eq!(
        regrets,
        vec![
            Fraction { numerator: 190, denominator: 2_000 },
            Fraction { numerator: 171, denominator: 2_000 },
            Fraction { numerator: 152, denominator: 2_000 },
        ]
    );
    let expected = [0.095, 0.0855, 0.076];
    for (action, regret) in response.actions.iter().zip(expected) {
        assert!((ratio(action.regret) - regret).abs() < 1e-9);
    }
    // A hundredth of 120 bb, times 1, 0.95, 0.9.
    let values: Vec<Fraction> = response.actions.iter().map(|a| a.ev).collect();
    assert_eq!(
        values,
        vec![
            Fraction { numerator: 2_400_000_000, denominator: 2_000_000_000 },
            Fraction { numerator: 2_280_000_000, denominator: 2_000_000_000 },
            Fraction { numerator: 2_160_000_000, denominator: 2_000_000_000 },
        ]
    );
    let expected = [1.2, 1.14, 1.08];
    for (action, value) in response.actions.iter().zip(expected) {
        assert!((ratio(action.ev) - value).abs() < 1e-9);
    }
    assert_eq!(
        response.exploitability,
        Fraction { numerator: 12_000_000, denominator: 1_000_000_000 }
    );
    assert!((ratio(response.exploitability) - 0.012).abs() < 1e-9);
    assert!(response.compute_time_ms >= 0);
}

#[test]
fn solve_frequencies_sum_to_one() {
    for count in [1usize, 2, 3, 7, 20, 21, 40] {
        let tokens: Vec<&str> = std::iter::repeat("all-in").take(count).collect();
        let response = SolverEngine::new().solve(&request(&tokens, 100, 80));
        assert_eq!(response.actions.len(), count);
        let total = response.actions[0].frequency.total;
        assert!(total > 0);
        assert!(response.actions.iter().all(|a| a.frequency.total == total));
        let weights: u64 = response.actions.iter().map(|a| a.frequency.weight).sum();
        assert_eq!(weights, total);
        let sum: f64 = response.actions.iter().map(|a| share(a.frequency)).sum();
        assert!((sum - 1.0).abs() < 1e-9);
    }
}

#[test]
fn solve_actions_are_bounded() {
    let tokens = ["pot:0.5", "stack:0.25", "abs:0", "abs:-4", "abs:900", "17", "all-in", "pot:99"];
    for stack in [0, 1, 40, 120] {
        let response = SolverEngine::new().solve(&request(&tokens, 30, stack));
        assert_eq!(response.actions.len(), tokens.len());
        let cap = Fixed::from_int(stack.max(1)).micros;
        for action in &response.actions {
            assert!(action.frequency.weight <= action.frequency.total);
            assert!(action.amount.micros > 0);
            assert!(action.amount.micros <= cap);
        }
    }
}

#[test]
fn solve_without_actions_is_empty() {
    let response = SolverEngine::new().solve(&request(&[], 200, 120));
    assert!(response.actions.is_empty());
    assert_eq!(response.exploitability.numerator, 0);
    assert_eq!(ratio(response.exploitability), 0.0);
    assert_eq!(response.source, "subgame");
    assert!(response.compute_time_ms >= 0);
    let dropped = SolverEngine::new().solve(&request(&["fold", "0", "-2", "", "0e9", "-1e-9"], 200, 120));
    assert!(dropped.actions.is_empty());
    assert_eq!(dropped.exploitability.numerator, 0);
}

#[test]
fn solve_is_deterministic() {
    let engine = SolverEngine::default();
    let first = engine.solve(&request(&["pot:0.33", "stack:0.5", "12", "all-in"], 200, 120));
    let mut other = request(&["pot:0.33", "stack:0.5", "12", "all-in"], 200, 120);
    other.state_fingerprint = "another caller".into();
    other.game_state.street = "river".into();
    let second = engine.solve(&other);
    assert_eq!(first.actions.len(), second.actions.len());
    for (a, b) in first.actions.iter().zip(second.actions.iter()) {
        assert_eq!(a.action_type, b.action_type);
        assert_eq!(a.amount, b.amount);
        assert_eq!(a.frequency, b.frequency);
        assert_eq!(a.ev, b.ev);
        assert_eq!(a.regret, b.regret);
    }
    assert_eq!(first.exploitability, second.exploitability);
}

#[test]
fn solve_discounts_later_actions() {
    let tokens: Vec<&str> = std::iter::repeat("all-in").take(25).collect();
    let response = SolverEngine::new().solve(&request(&tokens, 500, 200));
    for pair in response.actions.windows(2) {
        assert_eq!(pair[0].ev.denominator, pair[1].ev.denominator);
        assert!(pair[0].ev.numerator >= pair[1].ev.numerator);
        assert!(ratio(pair[0].ev) >= ratio(pair[1].ev));
        assert_eq!(pair[0].regret.denominator, pair[1].regret.denominator);
        assert!(pair[0].regret.numerator >= pair[1].regret.numerator);
        assert!(ratio(pair[0].regret) >= ratio(pair[1].regret));
    }
    // The value never falls below a tenth of the first, the regret ends at zero.
    assert_eq!(ratio(response.actions[0].ev), 2.0);
    assert_eq!(ratio(response.actions[18].ev), 0.2);
    assert_eq!(ratio(response.actions[24].ev), 0.2);
    // 500 ms grant 50 rounds: 49/50 of 0.01.
    assert_eq!(response.actions[9].regret, Fraction { numerator: 49, denominator: 5_000 });
    assert_eq!(response.actions[10].regret.numerator, 0);
}

#[test]
fn iterations_follow_budget_and_branching() {
    assert_eq!(determine_iterations(200, 3), 20);
    assert_eq!(determine_iterations(1000, 3), 100);
    assert_eq!(determine_iterations(59, 3), 5);
    assert_eq!(determine_iterations(60, 3), 6);
    assert_eq!(determine_iterations(200, 64), 64);
    assert_eq!(determine_iterations(i32::MAX, 0), 214_748_364);
}

#[test]
fn iterations_never_vanish() {
    for budget in [0, -1, -100, i32::MIN] {
        for count in [0usize, 1, 5, 6, 12, 300] {
            let iterations = determine_iterations(budget, count);
            assert_eq!(iterations, count.max(5));
            assert!(iterations >= 1);
        }
    }
}

#[test]
fn exploitability_is_a_clamped_thousandth() {
    let of = |pot: Fixed| {
        let quality = exploitability(pot);
        assert_eq!(quality.denominator, 1_000_000_000);
        quality.numerator
    };
    assert_eq!(of(Fixed::from_int(12)), 12_000_000);
    assert_eq!(of(Fixed::from_int(499)), 499_000_000);
    assert_eq!(of(Fixed::from_int(500)), 500_000_000);
    assert_eq!(of(Fixed::from_int(100_000)), 500_000_000);
    assert_eq!(of(Fixed::from_micros(i64::MAX)), 500_000_000);
    assert_eq!(of(Fixed::zero()), 0);
    assert_eq!(of(Fixed::from_int(-5)), 0);
    assert_eq!(of(Fixed::from_micros(i64::MIN)), 0);
    // Nothing of the pot is cut off.
    assert_eq!(of(Fixed::from_micros(1_999)), 1_999);
    assert_eq!(ratio(exploitability(Fixed::from_int(12))), 0.012);
    assert_eq!(ratio(exploitability(Fixed::from_int(730))), 0.5);
}

#[test]
fn response_carries_what_it_is_given() {
    let quality = Fraction { numerator: 7, denominator: 9 };
    let response = build_response(Vec::new(), 42, quality);
    assert!(response.actions.is_empty());
    assert_eq!(response.compute_time_ms, 42);
    assert_eq!(response.exploitability, quality);
    assert_eq!(response.source, "subgame");
}

#[test]
fn solve_keeps_an_unbounded_bare_number() {
    let response = SolverEngine::new().solve(&request(&["inf", "nan", "stack:nan"], 200, 120));
    let labels: Vec<&str> = response.actions.iter().map(|a| a.action_type.as_str()).collect();
    assert_eq!(labels, vec!["abs-inf", "stack-NaN"]);
    let amounts: Vec<i64> = response.actions.iter().map(|a| a.amount.micros).collect();
    assert_eq!(amounts, vec![120_000_000, 500_000]);
    let weights: u64 = response.actions.iter().map(|a| a.frequency.weight).sum();
    assert_eq!(weights, response.actions[0].frequency.total);
}

#[test]
fn solve_keeps_a_bare_number_below_a_millionth() {
    let response = SolverEngine::new().solve(&request(&[".0000001"], 200, 120));
    assert_eq!(response.actions.len(), 1);
    assert_eq!(response.actions[0].action_type, "abs-0.00");
    assert_eq!(response.actions[0].amount.micros, 1);
    assert_eq!(response.actions[0].frequency, Frequency { weight: 20, total: 20 });
    assert!((share(response.actions[0].frequency) - 1.0).abs() <= 1e-9);
}
