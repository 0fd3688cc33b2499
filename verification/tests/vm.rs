use std::collections::HashMap;

use lorenz::state::SystemState;
use lorenz::vm::{ChaosVM, Effect, VmError};
use rand_distr::{Distribution, Normal};

/// A probability cloud: mean, variance and sensitivities.
#[derive(Debug, Clone)]
struct Cloud {
    mean: f64,
    variance: f64,
    sensitivity: HashMap<String, f64>,
}

impl Cloud {
    fn new(mean: f64, variance: f64) -> Self {
        assert!(variance >= 0.0, "variance must be non-negative");
        Cloud { mean, variance, sensitivity: HashMap::new() }
    }

    fn collapse(&self) -> f64 {
        let sd = self.variance.sqrt();
        if sd == 0.0 {
            return self.mean;
        }
        Normal::new(self.mean, sd).unwrap().sample(&mut rand::rng())
    }
}

/// Runs bytecode to its collapse, doing the arithmetic the machine asks for.
fn run(code: Vec<u8>, state: SystemState<Cloud>) -> Result<f64, String> {
    let mut vm: ChaosVM<Cloud> = ChaosVM::new(code, state);
    loop {
        match vm.step().map_err(|e| e.message())? {
            Effect::Done => {}
            Effect::Literal(bits) => vm.push(Cloud::new(f64::from_bits(bits), 0.0)),
            Effect::Chaotic(m, v) => vm.push(Cloud::new(f64::from_bits(m), f64::from_bits(v))),
            Effect::Add(a, b) => {
                let cov: f64 = a
                    .sensitivity
                    .iter()
                    .filter_map(|(k, v1)| b.sensitivity.get(k).map(|v2| v1 * v2))
                    .sum();
                let mut s = a.sensitivity.clone();
                for (k, v) in &b.sensitivity {
                    *s.entry(k.clone()).or_insert(0.0) += v;
                }
                let mut c = Cloud::new(a.mean + b.mean, a.variance + b.variance + 2.0 * cov);
                c.sensitivity = s;
                vm.push(c);
            }
            Effect::Propagate(mut v, t) => {
                let t = f64::from_bits(t);
                assert!(t >= 0.0, "time_step must be non-negative");
                v.variance *= (0.2 * t).exp();
                for c in v.sensitivity.values_mut() {
                    *c *= (0.1 * t).exp();
                }
                vm.push(v);
            }
            Effect::Collapse(v) => return Ok(v.collapse()),
        }
    }
}

fn make_test_state() -> SystemState<Cloud> {
    let mut state = SystemState::new();
    state.add_var("pressure".to_string(), Cloud::new(101.0, 0.1));
    state.add_var("temperature".to_string(), Cloud::new(20.0, 0.25));
    state.set_covariance("pressure", "temperature", (-2.0f64).to_bits());
    state
}

#[test]
fn test_vm_literal_collapse() {
    let code = vec![0x02, 0x40, 0x45, 0x00, 0x00, 0x00, 0x00, 0x00, 0x00, 0x05];
    let result = run(code, SystemState::new()).unwrap();
    assert_eq!(result, 42.0);
}

#[test]
fn test_vm_load_var_collapse() {
    let mut code = vec![0x01];
    let name = b"pressure";
    code.extend_from_slice(&(name.len() as u16).to_be_bytes());
    code.extend_from_slice(name);
    code.push(0x05);

    let result = run(code, make_test_state()).unwrap();
    assert!((result - 101.0).abs() < 10.0);
}

#[test]
fn test_vm_chaotic() {
    let mut code = vec![0x06];
    code.extend_from_slice(&101.0_f64.to_be_bytes());
    code.extend_from_slice(&0.1_f64.to_be_bytes());
    code.push(0x05);

    let result = run(code, SystemState::new()).unwrap();
    assert!((result - 101.0).abs() < 10.0);
}

#[test]
fn test_vm_let_and_load() {
    let mut code = vec![0x06];
    code.extend_from_slice(&42.0_f64.to_be_bytes());
    code.extend_from_slice(&0.0_f64.to_be_bytes());
    code.push(0x07);
    let name = b"x";
    code.extend_from_slice(&(name.len() as u16).to_be_bytes());
    code.extend_from_slice(name);
    code.push(0x01);
    code.extend_from_slice(&(name.len() as u16).to_be_bytes());
    code.extend_from_slice(name);
    code.push(0x05);

    let result = run(code, SystemState::new()).unwrap();
    assert_eq!(result, 42.0);
}

#[test]
fn test_vm_undefined_variable_error() {
    let mut code = vec![0x01];
    let name = b"nonexistent";
    code.extend_from_slice(&(name.len() as u16).to_be_bytes());
    code.extend_from_slice(name);
    code.push(0x05);

    let result = run(code, SystemState::new());
    assert!(result.is_err());
    assert!(result.unwrap_err().contains("Undefined variable"));
}

#[test]
fn test_vm_add_two_chaotic() {
    let mut code = vec![0x06];
    code.extend_from_slice(&10.0_f64.to_be_bytes());
    code.extend_from_slice(&1.0_f64.to_be_bytes());
    code.push(0x06);
    code.extend_from_slice(&20.0_f64.to_be_bytes());
    code.extend_from_slice(&2.0_f64.to_be_bytes());
    code.push(0x03);
    code.push(0x05);

    let result = run(code, SystemState::new()).unwrap();
    assert!((result - 30.0).abs() < 10.0);
}

#[test]
fn test_vm_pop() {
    let mut code = vec![0x06];
    code.extend_from_slice(&42.0_f64.to_be_bytes());
    code.extend_from_slice(&0.0_f64.to_be_bytes());
    code.push(0x08);
    code.push(0x06);
    code.extend_from_slice(&99.0_f64.to_be_bytes());
    code.extend_from_slice(&0.0_f64.to_be_bytes());
    code.push(0x05);

    let result = run(code, SystemState::new()).unwrap();
    assert_eq!(result, 99.0);
}

#[test]
fn test_vm_complex_expression() {
    let mut code = Vec::new();
    code.push(0x06);
    code.extend_from_slice(&101.0_f64.to_be_bytes());
    code.extend_from_slice(&0.1_f64.to_be_bytes());
    code.push(0x07);
    code.extend_from_slice(b"\x00\x08");
    code.extend_from_slice(b"pressure");
    code.push(0x06);
    code.extend_from_slice(&20.0_f64.to_be_bytes());
    code.extend_from_slice(&0.5_f64.to_be_bytes());
    code.push(0x07);
    code.extend_from_slice(b"\x00\x04");
    code.extend_from_slice(b"temp");
    code.push(0x01);
    code.extend_from_slice(b"\x00\x08");
    code.extend_from_slice(b"pressure");
    code.push(0x01);
    code.extend_from_slice(b"\x00\x04");
    code.extend_from_slice(b"temp");
    code.push(0x03);
    code.push(0x04);
    code.extend_from_slice(&1.0_f64.to_be_bytes());
    code.push(0x05);

    let result = run(code, SystemState::new()).unwrap();
    assert!((result - 121.0).abs() < 20.0);
}

#[test]
fn test_vm_empty_stack_error() {
    let code = vec![0x03];
    let result = run(code, SystemState::new());
    assert!(result.is_err());
    assert!(result.unwrap_err().contains("Stack underflow"));
}

#[test]
fn test_vm_unknown_opcode_error() {
    let code = vec![0xFF];
    let result = run(code, SystemState::new());
    assert!(result.is_err());
    assert!(result.unwrap_err().contains("Unknown opcode"));
}

#[test]
fn test_vm_no_collapse_error() {
    let code = vec![0x02, 0x40, 0x08, 0x00, 0x00, 0x00, 0x00, 0x00, 0x00];
    let result = run(code, SystemState::new());
    assert!(result.is_err());
    assert!(result.unwrap_err().contains("without COLLAPSE"));
}

#[test]
fn step_reports_each_effect_and_moves_the_pointer() {
    let mut code = vec![0x02];
    code.extend_from_slice(&1.5_f64.to_be_bytes());
    code.extend_from_slice(&[0x02, 0, 0, 0, 0, 0, 0, 0, 0, 0x03, 0x08, 0x05]);
    let mut vm: ChaosVM<u32> = ChaosVM::new(code, SystemState::new());
    assert!(matches!(vm.step(), Ok(Effect::Literal(b)) if b == 1.5_f64.to_bits()));
    assert_eq!(vm.ip, 9);
    vm.push(1);
    assert!(matches!(vm.step(), Ok(Effect::Literal(0))));
    vm.push(2);
    assert!(matches!(vm.step(), Ok(Effect::Add(1, 2))));
    assert!(vm.stack.is_empty());
    vm.push(3);
    assert!(matches!(vm.step(), Ok(Effect::Done)));
    assert!(vm.stack.is_empty());
    assert!(matches!(vm.step(), Err(VmError::StackUnderflow)));
    assert_eq!(vm.ip, 21);
}

#[test]
fn step_errors_on_truncated_operands() {
    let cases: Vec<(Vec<u8>, VmError, usize)> = vec![
        (vec![0x01, 0x00], VmError::TruncatedStringLength, 1),
        (vec![0x07, 0x00, 0x03, b'a'], VmError::TruncatedStringData, 3),
        (vec![0x04, 1, 2, 3], VmError::TruncatedOperand, 1),
        (vec![0x06, 0, 0, 0, 0, 0, 0, 0, 0, 1], VmError::TruncatedOperand, 9),
        (vec![0x01, 0x00, 0x01, 0xFF], VmError::InvalidUtf8(vec![0xFF]), 4),
        (vec![0xFF], VmError::UnknownOpcode(0xFF), 0),
        (vec![], VmError::NoCollapse, 0),
    ];
    for (code, error, ip) in cases {
        let mut vm: ChaosVM<u32> = ChaosVM::new(code, SystemState::new());
        assert_eq!(vm.step().unwrap_err(), error);
        assert_eq!(vm.ip, ip);
        assert!(vm.stack.is_empty());
    }
}

#[test]
fn let_stores_and_load_pushes_a_copy() {
    let code = vec![0x07, 0x00, 0x01, b'y', 0x01, 0x00, 0x01, b'y', 0x01, 0x00, 0x01, b'x'];
    let mut vm: ChaosVM<u32> = ChaosVM::new(code, SystemState::new());
    vm.push(5);
    assert!(matches!(vm.step(), Ok(Effect::Done)));
    assert!(vm.stack.is_empty());
    assert_eq!(vm.state.get_var("y"), Some(&5));
    assert!(matches!(vm.step(), Ok(Effect::Done)));
    assert_eq!(vm.stack, vec![5]);
    assert_eq!(vm.state.get_var("y"), Some(&5));
    assert_eq!(vm.step().unwrap_err(), VmError::UndefinedVariable("x".to_string()));
    assert_eq!(vm.stack, vec![5]);
}

#[test]
fn let_replaces_an_earlier_value() {
    let code = vec![0x07, 0x00, 0x01, b'v', 0x07, 0x00, 0x01, b'v'];
    let mut vm: ChaosVM<u32> = ChaosVM::new(code, SystemState::new());
    vm.push(1);
    vm.push(2);
    assert!(matches!(vm.step(), Ok(Effect::Done)));
    assert_eq!(vm.state.get_var("v"), Some(&2));
    assert!(matches!(vm.step(), Ok(Effect::Done)));
    assert_eq!(vm.state.get_var("v"), Some(&1));
    assert_eq!(vm.state.variables.len(), 1);
}

#[test]
fn error_messages() {
    assert_eq!(VmError::UnknownOpcode(0xFF).message(), "Unknown opcode: 0xff");
    assert_eq!(VmError::UnknownOpcode(0x0a).message(), "Unknown opcode: 0x0a");
    assert_eq!(VmError::NoCollapse.message(), "Execution ended without COLLAPSE instruction");
    assert_eq!(VmError::StackUnderflow.message(), "Stack underflow: not enough values");
    assert_eq!(VmError::TruncatedOperand.message(), "Truncated bytecode: missing f64 operand");
    assert_eq!(VmError::TruncatedStringLength.message(), "Truncated bytecode: missing string length");
    assert_eq!(VmError::TruncatedStringData.message(), "Truncated bytecode: missing string data");
    assert_eq!(
        VmError::UndefinedVariable("q".to_string()).message(),
        "Runtime Error: Undefined variable 'q'"
    );
    assert_eq!(
        VmError::InvalidUtf8(vec![0xFF]).message(),
        "Invalid UTF-8 in variable name: invalid utf-8 sequence of 1 bytes from index 0"
    );
}

#[test]
fn negative_operands_are_refused() {
    let chaotic = |variance: f64| {
        let mut code = vec![0x06];
        code.extend_from_slice(&1.0_f64.to_be_bytes());
        code.extend_from_slice(&variance.to_be_bytes());
        code.push(0x05);
        code
    };
    assert_eq!(run(chaotic(-1.0), SystemState::new()), Err("variance must be non-negative".to_string()));
    assert_eq!(run(chaotic(f64::NAN), SystemState::new()), Err("variance must be non-negative".to_string()));
    assert_eq!(run(chaotic(-0.0), SystemState::new()), Ok(1.0));
    let mut vm: ChaosVM<u32> = ChaosVM::new(chaotic(f64::INFINITY), SystemState::new());
    assert!(matches!(vm.step(), Ok(Effect::Chaotic(_, v)) if v == f64::INFINITY.to_bits()));

    let mut code = chaotic(0.0);
    code.pop();
    code.push(0x04);
    code.extend_from_slice(&(-2.0_f64).to_be_bytes());
    code.push(0x05);
    let mut vm: ChaosVM<u32> = ChaosVM::new(code.clone(), SystemState::new());
    assert!(matches!(vm.step(), Ok(Effect::Chaotic(_, 0))));
    vm.push(7);
    assert_eq!(vm.step().unwrap_err(), VmError::NegativeTimeStep);
    assert!(vm.stack.is_empty());
    assert_eq!(run(code, SystemState::new()), Err("time_step must be non-negative".to_string()));
    assert_eq!(VmError::NegativeVariance.message(), "variance must be non-negative");
    assert_eq!(VmError::NegativeTimeStep.message(), "time_step must be non-negative");
}
