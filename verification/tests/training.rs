use linear_regression::{
    mean_std, rmse, Entry, LinearRegresser, TrainError, TrainedPredictor,
};

const SCALE: i64 = 1_000_000;

fn entry(km: i64, price: i64) -> Entry {
    Entry { km: km * SCALE, price: price * SCALE }
}

fn linear_data() -> Vec<Entry> {
    // price = 2 * km + 3, exactly
    (1..=10).map(|k| entry(k, 2 * k + 3)).collect()
}

#[test]
fn mean_std_constant_sequence() {
    let values = vec![5 * SCALE, 5 * SCALE, 5 * SCALE];
    let (mean, std) = mean_std(&values);
    assert_eq!(mean, 5 * SCALE);
    assert_eq!(std, 0);
}

#[test]
fn mean_std_one_to_five() {
    let values = vec![SCALE, 2 * SCALE, 3 * SCALE, 4 * SCALE, 5 * SCALE];
    let (mean, std) = mean_std(&values);
    assert_eq!(mean, 3 * SCALE);
    // sqrt(2) in millionths, rounded down
    assert_eq!(std, 1_414_213);
}

#[test]
fn train_empty_observations_is_noop() {
    let reg = LinearRegresser::default();
    let got = reg.train().unwrap();
    assert_eq!(got, (0, 0, TrainedPredictor { theta_0: 0, theta_1: 0 }));
}

#[test]
fn train_empty_observations_ignores_hyperparameters() {
    let reg = LinearRegresser {
        data: Vec::new(),
        learning_rate: 7 * SCALE,
        iterations: 123_456,
        delta_threshold: -5,
    };
    let got = reg.train().unwrap();
    assert_eq!(got, (0, 0, TrainedPredictor { theta_0: 0, theta_1: 0 }));
}

#[test]
fn train_zero_learning_rate_is_noop() {
    let reg = LinearRegresser { data: linear_data(), learning_rate: 0, ..Default::default() };
    let got = reg.train().unwrap();
    assert_eq!(got, (0, 0, TrainedPredictor { theta_0: 0, theta_1: 0 }));
}

#[test]
fn train_negative_learning_rate_is_noop() {
    let reg = LinearRegresser { data: linear_data(), learning_rate: -1, ..Default::default() };
    let got = reg.train().unwrap();
    assert_eq!(got, (0, 0, TrainedPredictor { theta_0: 0, theta_1: 0 }));
}

#[test]
fn train_zero_iterations_is_noop() {
    let reg = LinearRegresser { data: linear_data(), iterations: 0, ..Default::default() };
    let got = reg.train().unwrap();
    assert_eq!(got, (0, 0, TrainedPredictor { theta_0: 0, theta_1: 0 }));
}

#[test]
fn train_exact_linear_relation_converges() {
    let reg = LinearRegresser {
        data: linear_data(),
        learning_rate: 100_000,  // 0.1
        iterations: 10_000,
        delta_threshold: 1,  // one millionth
    };
    let (used, dev, pred) = reg.train().unwrap();
    // converges to theta_0 = 3, theta_1 = 2 within one thousandth
    assert!((pred.theta_0 - 3 * SCALE).abs() <= 1_000, "theta_0 = {}", pred.theta_0);
    assert!((pred.theta_1 - 2 * SCALE).abs() <= 1_000, "theta_1 = {}", pred.theta_1);
    assert_eq!(dev, 0);
    assert!(used <= 10_000);
}

#[test]
fn train_is_deterministic() {
    let reg = LinearRegresser {
        data: linear_data(),
        learning_rate: 100_000,
        iterations: 1000,
        delta_threshold: 100,
    };
    let first = reg.train().unwrap();
    let second = reg.train().unwrap();
    assert_eq!(first, second);
    let again = LinearRegresser {
        data: linear_data(),
        learning_rate: 100_000,
        iterations: 1000,
        delta_threshold: 100,
    };
    assert_eq!(again.train().unwrap(), first);
}

#[test]
fn iterations_used_without_early_stop_is_the_budget() {
    let reg = LinearRegresser {
        data: linear_data(),
        learning_rate: 100_000,
        iterations: 5,
        delta_threshold: 0,  // early stop disabled
    };
    let (used, _, _) = reg.train().unwrap();
    assert_eq!(used, 5);
}

#[test]
fn iterations_used_stays_within_budget_on_early_stop() {
    let reg = LinearRegresser {
        data: linear_data(),
        learning_rate: 100_000,
        iterations: 10_000,
        delta_threshold: 100,
    };
    let (used, _, _) = reg.train().unwrap();
    assert!(used < 10_000);
}

#[test]
fn huge_threshold_stops_at_index_zero() {
    let reg = LinearRegresser {
        data: linear_data(),
        learning_rate: 100_000,
        iterations: 10_000,
        delta_threshold: i64::MAX,
    };
    let (used, _, _) = reg.train().unwrap();
    assert_eq!(used, 0);
}

#[test]
fn zero_km_variance_is_rejected() {
    let reg = LinearRegresser {
        data: vec![entry(5, 3), entry(5, 7)],
        ..Default::default()
    };
    assert_eq!(reg.train(), Err(TrainError::ZeroVariance));
}

#[test]
fn zero_price_variance_is_rejected() {
    let reg = LinearRegresser {
        data: vec![entry(1, 4), entry(2, 4), entry(3, 4)],
        ..Default::default()
    };
    assert_eq!(reg.train(), Err(TrainError::ZeroVariance));
}

#[test]
fn single_observation_has_zero_variance() {
    let reg = LinearRegresser { data: vec![entry(3, 9)], ..Default::default() };
    assert_eq!(reg.train(), Err(TrainError::ZeroVariance));
}

#[test]
fn duplicate_observations_weight_the_fit() {
    let mut data = linear_data();
    data.extend(linear_data());
    let reg = LinearRegresser {
        data,
        learning_rate: 100_000,
        iterations: 10_000,
        delta_threshold: 1,
    };
    let (_, dev, pred) = reg.train().unwrap();
    assert!((pred.theta_0 - 3 * SCALE).abs() <= 1_000);
    assert!((pred.theta_1 - 2 * SCALE).abs() <= 1_000);
    assert_eq!(dev, 0);
}

#[test]
fn rmse_reported_matches_independent_recomputation() {
    let data = vec![entry(1, 4), entry(2, 9), entry(3, 10), entry(4, 17)];
    let reg = LinearRegresser {
        data: data.clone(),
        learning_rate: 100_000,
        iterations: 1000,
        delta_threshold: 100,
    };
    let (_, dev, pred) = reg.train().unwrap();
    assert_eq!(dev, rmse(&data, &pred));
}

#[test]
fn predict_is_the_affine_formula() {
    let p = TrainedPredictor { theta_0: 3 * SCALE, theta_1: 2 * SCALE };
    assert_eq!(p.predict(10 * SCALE), 23 * SCALE);
    assert_eq!(p.predict(0), 3 * SCALE);
    assert_eq!(p.predict(-SCALE), SCALE);
}

#[test]
fn delta_of_predictor_with_itself_is_zero() {
    let p = TrainedPredictor { theta_0: 123_456, theta_1: -654_321 };
    assert_eq!(p.delta(&p), 0);
    let q = TrainedPredictor { theta_0: 0, theta_1: 0 };
    assert_eq!(q.delta(&q), 0);
}

#[test]
fn delta_is_the_asymmetric_metric() {
    // |a0 - b0| + (a1 - b1)^2 with fixed-point squaring
    let a = TrainedPredictor { theta_0: 3 * SCALE, theta_1: 2 * SCALE };
    let b = TrainedPredictor { theta_0: SCALE, theta_1: 4 * SCALE };
    // |2| + (-2)^2 = 2 + 4 = 6
    assert_eq!(a.delta(&b), 6 * SCALE);
}

#[test]
fn default_hyperparameters() {
    let reg = LinearRegresser::default();
    assert_eq!(reg.data.len(), 0);
    assert_eq!(reg.learning_rate, 100_000);
    assert_eq!(reg.iterations, 1000);
    assert_eq!(reg.delta_threshold, 100);
}
