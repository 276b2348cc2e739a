use clog_points::points::score;

#[test]
fn steep_tier_boundary_is_uncapped() {
    let expected = (100.0 * (1.0f64 / 5.0).powf(1.5) * 30.0).round() as i64;
    assert_eq!(score(5000, false), expected);
    assert_eq!(score(5000, false), 268);
}

#[test]
fn steep_tier_is_clamped_when_eligible() {
    assert_eq!(score(500, true), 3000);
    assert_eq!(score(500, false), 8485);
}

#[test]
fn tier_boundaries_are_ordered() {
    assert_eq!(score(20000, false), 200);
    assert_eq!(score(20000, true), 200);
    assert!(score(5000, false) > score(20000, false));
}

#[test]
fn common_tier_value() {
    assert_eq!(score(50000, false), 75);
    assert_eq!(score(50000, true), 75);
}

#[test]
fn formula_values_in_each_tier() {
    assert_eq!(score(100, false), 94868);
    assert_eq!(score(100, true), 3000);
    assert_eq!(score(17900, false), 242);
    assert_eq!(score(5001, false), 500);
    assert_eq!(score(100000, false), 50);
    assert_eq!(score(3000, false), 577);
}

#[test]
fn lower_rate_scores_at_least_as_much_within_tiers() {
    let rates = [100u32, 250, 1000, 2500, 4999, 5000];
    for w in rates.windows(2) {
        assert!(score(w[0], false) >= score(w[1], false));
    }
    let rates = [5001u32, 10000, 19999, 20000, 20001, 60000, 100000];
    for w in rates.windows(2) {
        assert!(score(w[0], true) >= score(w[1], true));
    }
}
