use stir::params::StirParams;

#[test]
fn params_validate_rejects_k_less_than_4() {
    let too_small_k = StirParams {
        log_initial_domain_size: 6,
        initial_degree_bound: 16,
        folding_factor: 2,
        num_rounds: 2,
        rate_log_inv: 2,
        security_bits: 128,
        repetition_schedule: vec![1, 1, 1],
        ood_samples: 2,
        stopping_degree: 1,
    };
    let err = too_small_k.validate().unwrap_err();
    assert!(err.contains("k ≥ 4") || err.contains("K_MIN"), "unexpected error: {err}");
    let non_power_of_two = StirParams { folding_factor: 5, ..too_small_k };
    let err = non_power_of_two.validate().unwrap_err();
    assert!(err.contains("power of 2"), "unexpected error: {err}");
}

#[test]
fn round_degree_bound_is_d_divided_by_k_to_round() {
    let params = StirParams::new(6, 16, 4);
    assert_eq!(params.round_degree_bound(0), 16);
    assert_eq!(params.round_degree_bound(1), 4);
    assert_eq!(params.round_degree_bound(2), 1);
}

#[test]
fn new_derives_rounds_and_schedule() {
    let params = StirParams::new(8, 64, 4);
    assert_eq!(params.num_rounds, 3);
    assert_eq!(params.repetition_schedule.len(), 4);
    assert_eq!(params.rate_log_inv, 2);
    assert!(params.validate().is_ok());
    assert_eq!(params.round_log_domain_size(0), 8);
    assert_eq!(params.round_log_domain_size(1), 7);
    assert_eq!(params.round_log_domain_size(3), 5);
}

#[test]
fn builders_replace_one_field_each() {
    let params = StirParams::new(6, 16, 4)
        .with_security_bits(32)
        .with_ood_samples(1)
        .with_stopping_degree(4)
        .with_repetition_schedule(vec![8, 4, 2])
        .with_rate_log_inv(3)
        .with_num_rounds(2);
    assert_eq!(params.security_bits, 32);
    assert_eq!(params.ood_samples, 1);
    assert_eq!(params.stopping_degree, 4);
    assert_eq!(params.repetition_schedule, vec![8, 4, 2]);
    assert_eq!(params.rate_log_inv, 3);
    assert_eq!(params.num_rounds, 2);
    assert_eq!(params.log_initial_domain_size, 6);
}

#[test]
fn validate_rejects_wrong_schedule_length() {
    let params = StirParams::new(6, 16, 4).with_repetition_schedule(vec![1, 1]);
    assert!(params.validate().unwrap_err().contains("repetition_schedule"));
}

#[test]
fn round_degree_bound_at_last_round_is_stopping_degree() {
    let params = StirParams::new(6, 16, 4).with_stopping_degree(4);
    assert_eq!(params.round_degree_bound(0), 16);
    assert_eq!(params.round_degree_bound(1), 4);
    assert_eq!(params.round_degree_bound(params.num_rounds), 4);
}

#[test]
fn validate_rejects_inconsistent_rate() {
    let params = StirParams::new(6, 16, 4).with_rate_log_inv(3);
    assert_eq!(params.validate(), Err("rate_log_inv must equal log2(|L_0| / d_0)"));
    assert!(StirParams::new(6, 16, 4).with_rate_log_inv(2).validate().is_ok());
}
