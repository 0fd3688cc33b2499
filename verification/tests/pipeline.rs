use lorenz::compiler::Compiler;
use lorenz::parser::parse;
use lorenz::state::SystemState;
use lorenz::vm::{ChaosVM, Effect, VmError};

fn float_bits(s: &str) -> Option<u64> {
    s.parse::<f64>().ok().map(f64::to_bits)
}

/// Compiled programs are read back instruction by instruction, in post-order.
#[test]
fn compiled_program_steps_in_order() {
    let ast = parse("let a = chaotic(1.0, 0.0)\ncollapse(propagate(a + 2.0, 3.0))", &float_bits).unwrap();
    let code = Compiler::compile(&ast).unwrap();
    let mut vm: ChaosVM<&'static str> = ChaosVM::new(code, SystemState::new());
    assert!(matches!(vm.step(), Ok(Effect::Chaotic(m, v)) if m == 1.0f64.to_bits() && v == 0));
    vm.push("cloud");
    assert!(matches!(vm.step(), Ok(Effect::Done)));
    assert_eq!(vm.state.get_var("a"), Some(&"cloud"));
    assert!(matches!(vm.step(), Ok(Effect::Done)));
    assert_eq!(vm.stack, vec!["cloud"]);
    assert!(matches!(vm.step(), Ok(Effect::Literal(b)) if b == 2.0f64.to_bits()));
    vm.push("two");
    assert!(matches!(vm.step(), Ok(Effect::Add("cloud", "two"))));
    vm.push("sum");
    assert!(matches!(vm.step(), Ok(Effect::Propagate("sum", t)) if t == 3.0f64.to_bits()));
    vm.push("later");
    assert!(matches!(vm.step(), Ok(Effect::Collapse("later"))));
    assert_eq!(vm.ip, vm.code.len());
}

/// Runs compiled code with placeholder values until it stops; returns the
/// error that stopped it, if any, and the stack height at the end.
fn run_placeholders(source: &str) -> (Option<VmError>, usize) {
    let ast = parse(source, &float_bits).unwrap();
    let code = Compiler::compile(&ast).unwrap();
    let mut state = SystemState::new();
    state.add_var("x".to_string(), 0u32);
    state.add_var("y".to_string(), 0u32);
    let mut vm: ChaosVM<u32> = ChaosVM::new(code, state);
    loop {
        match vm.step() {
            Ok(Effect::Done) => {}
            Ok(Effect::Collapse(_)) => return (None, vm.stack.len()),
            Ok(_) => vm.push(1),
            Err(e) => return (Some(e), vm.stack.len()),
        }
    }
}

/// Programs the parser accepts never run the stack dry.
#[test]
fn parsed_programs_never_underflow() {
    let (stop, _) = run_placeholders("x + y + 1.0; collapse(propagate(x, 2.0))");
    assert_eq!(stop, None);
    let (stop, height) = run_placeholders("let a = x\nlet b = a + y\nb");
    assert_eq!(stop, Some(VmError::NoCollapse));
    assert_eq!(height, 1);
    let (stop, height) = run_placeholders("x; y; let c = chaotic(1.0, 2.0)");
    assert_eq!(stop, Some(VmError::NoCollapse));
    assert_eq!(height, 0);
    let (stop, _) = run_placeholders("collapse((x + (y + 3.0)))");
    assert_eq!(stop, None);
}
