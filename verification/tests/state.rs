use lorenz::state::SystemState;

/// A value with a mean, as the state's tests need.
#[derive(Debug, Clone, PartialEq)]
struct Cloud {
    mean: f64,
    variance: f64,
}

fn cloud(mean: f64, variance: f64) -> Cloud {
    Cloud { mean, variance }
}

fn cov(state: &SystemState<Cloud>, a: &str, b: &str) -> f64 {
    f64::from_bits(state.covariance(a, b))
}

#[test]
fn test_system_state_new() {
    let state: SystemState<Cloud> = SystemState::new();
    assert!(state.variables.is_empty());
    assert!(state.covariances.is_empty());
}

#[test]
fn test_add_var_and_get_var() {
    let mut state = SystemState::new();
    let var = cloud(10.0, 1.0);
    state.add_var("x".to_string(), var);

    assert!(state.get_var("x").is_some());
    assert_eq!(state.get_var("x").unwrap().mean, 10.0);
    assert!(state.get_var("y").is_none());
}

#[test]
fn test_covariance_symmetric() {
    let mut state: SystemState<Cloud> = SystemState::new();
    state.set_covariance("a", "b", 5.0f64.to_bits());

    assert_eq!(cov(&state, "a", "b"), 5.0);
    assert_eq!(cov(&state, "b", "a"), 5.0);
}

#[test]
fn test_covariance_default_zero() {
    let state: SystemState<Cloud> = SystemState::new();
    assert_eq!(cov(&state, "x", "y"), 0.0);
}

#[test]
fn add_var_replaces_a_variable_of_the_same_name() {
    let mut state = SystemState::new();
    state.add_var("x".to_string(), cloud(1.0, 0.5));
    state.add_var("y".to_string(), cloud(2.0, 0.5));
    state.add_var("x".to_string(), cloud(3.0, 0.5));
    assert_eq!(state.variables.len(), 2);
    assert_eq!(state.get_var("x"), Some(&cloud(3.0, 0.5)));
    assert_eq!(state.get_var("y"), Some(&cloud(2.0, 0.5)));
}

#[test]
fn set_covariance_replaces_and_keeps_other_pairs() {
    let mut state: SystemState<Cloud> = SystemState::default();
    state.set_covariance("a", "b", 5.0f64.to_bits());
    state.set_covariance("a", "c", 1.5f64.to_bits());
    state.set_covariance("b", "a", (-2.0f64).to_bits());
    assert_eq!(cov(&state, "a", "b"), -2.0);
    assert_eq!(cov(&state, "b", "a"), -2.0);
    assert_eq!(cov(&state, "c", "a"), 1.5);
    assert_eq!(cov(&state, "b", "c"), 0.0);
    assert_eq!(state.covariances.len(), 4);
}

#[test]
fn covariance_of_a_variable_with_itself() {
    let mut state: SystemState<Cloud> = SystemState::new();
    state.set_covariance("t", "t", 0.25f64.to_bits());
    assert_eq!(cov(&state, "t", "t"), 0.25);
    assert_eq!(state.covariances.len(), 1);
}

#[test]
fn covariance_reads_the_last_set_on_its_pair() {
    let mut state: SystemState<Cloud> = SystemState::new();
    state.set_covariance("a", "b", 1.0f64.to_bits());
    state.set_covariance("c", "a", 2.0f64.to_bits());
    state.set_covariance("b", "a", 3.0f64.to_bits());
    state.set_covariance("c", "d", 4.0f64.to_bits());
    assert_eq!(cov(&state, "a", "b"), 3.0);
    assert_eq!(cov(&state, "b", "a"), 3.0);
    assert_eq!(cov(&state, "a", "c"), 2.0);
    assert_eq!(cov(&state, "d", "c"), 4.0);
    assert_eq!(cov(&state, "b", "d"), 0.0);
}
