use monte_carlo_rs::rejection::RejectionBudget;
use monte_carlo_rs::variance::samples_per_stratum;

#[test]
fn budget_stops_when_target_reached() {
    let mut budget = RejectionBudget::new(3);
    let pattern = [true, false, true, false, false, true, true, true];
    let mut i = 0;
    while budget.keep_going() {
        budget.record(pattern[i]);
        i += 1;
    }
    assert_eq!(budget.accepted(), 3);
    assert_eq!(budget.attempts(), 6);
    assert_eq!(budget.target(), 3);
}

#[test]
fn budget_gives_up_after_limit() {
    let mut budget = RejectionBudget::new(5);
    while budget.keep_going() {
        budget.record(false);
    }
    assert_eq!(budget.accepted(), 0);
    assert_eq!(budget.attempts(), 501);
}

#[test]
fn budget_acceptance_rate_at_most_one() {
    let mut budget = RejectionBudget::new(1000);
    let mut k = 0u32;
    while budget.keep_going() {
        budget.record(k % 3 != 0);
        k += 1;
    }
    let rate = budget.accepted() as f64 / budget.attempts() as f64;
    assert!(rate > 0.0 && rate <= 1.0);
    assert_eq!(budget.accepted(), 1000);
}

#[test]
fn budget_for_zero_samples_never_runs() {
    let budget = RejectionBudget::new(0);
    assert!(!budget.keep_going());
    assert_eq!(budget.attempts(), 0);
}

#[test]
fn stratum_share() {
    assert_eq!(samples_per_stratum(10000, 10), 1000);
    assert_eq!(samples_per_stratum(10001, 10), 1000);
    assert_eq!(samples_per_stratum(5, 10), 1);
    assert_eq!(samples_per_stratum(0, 3), 1);
}
