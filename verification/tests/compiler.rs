use lorenz::ast::Expr;
use lorenz::compiler::{Compiler, OpCode};

fn bits(x: f64) -> u64 {
    x.to_bits()
}

fn disassemble(code: &[u8]) -> String {
    let mut output = String::new();
    let mut ip = 0;
    while ip < code.len() {
        let offset = ip;
        match OpCode::from_byte(code[ip]) {
            Some(OpCode::LOAD_VAR) => {
                ip += 1;
                if ip + 2 > code.len() {
                    break;
                }
                let len = u16::from_be_bytes([code[ip], code[ip + 1]]) as usize;
                ip += 2;
                if ip + len > code.len() {
                    break;
                }
                let name = String::from_utf8_lossy(&code[ip..ip + len]);
                output.push_str(&format!("{:04x}: LOAD_VAR \"{}\"\n", offset, name));
                ip += len;
            }
            Some(OpCode::LITERAL) => {
                ip += 1;
                if ip + 8 > code.len() {
                    break;
                }
                let bytes: [u8; 8] = [
                    code[ip], code[ip + 1], code[ip + 2], code[ip + 3],
                    code[ip + 4], code[ip + 5], code[ip + 6], code[ip + 7],
                ];
                let value = f64::from_be_bytes(bytes);
                output.push_str(&format!("{:04x}: LITERAL {}\n", offset, value));
                ip += 8;
            }
            Some(OpCode::ADD) => {
                output.push_str(&format!("{:04x}: ADD\n", offset));
                ip += 1;
            }
            Some(OpCode::PROPAGATE) => {
                ip += 1;
                if ip + 8 > code.len() {
                    break;
                }
                let bytes: [u8; 8] = [
                    code[ip], code[ip + 1], code[ip + 2], code[ip + 3],
                    code[ip + 4], code[ip + 5], code[ip + 6], code[ip + 7],
                ];
                let ts = f64::from_be_bytes(bytes);
                output.push_str(&format!("{:04x}: PROPAGATE {}\n", offset, ts));
                ip += 8;
            }
            Some(OpCode::COLLAPSE) => {
                output.push_str(&format!("{:04x}: COLLAPSE\n", offset));
                ip += 1;
            }
            Some(OpCode::CHAOTIC) => {
                ip += 1;
                if ip + 16 > code.len() {
                    break;
                }
                let m: [u8; 8] = [
                    code[ip], code[ip + 1], code[ip + 2], code[ip + 3],
                    code[ip + 4], code[ip + 5], code[ip + 6], code[ip + 7],
                ];
                let v: [u8; 8] = [
                    code[ip + 8], code[ip + 9], code[ip + 10], code[ip + 11],
                    code[ip + 12], code[ip + 13], code[ip + 14], code[ip + 15],
                ];
                output.push_str(&format!(
                    "{:04x}: CHAOTIC({}, {})\n",
                    offset,
                    f64::from_be_bytes(m),
                    f64::from_be_bytes(v)
                ));
                ip += 16;
            }
            Some(OpCode::LET) => {
                ip += 1;
                if ip + 2 > code.len() {
                    break;
                }
                let len = u16::from_be_bytes([code[ip], code[ip + 1]]) as usize;
                ip += 2;
                if ip + len > code.len() {
                    break;
                }
                let name = String::from_utf8_lossy(&code[ip..ip + len]);
                output.push_str(&format!("{:04x}: LET \"{}\"\n", offset, name));
                ip += len;
            }
            Some(OpCode::POP) => {
                output.push_str(&format!("{:04x}: POP\n", offset));
                ip += 1;
            }
            None => {
                output.push_str(&format!("{:04x}: UNKNOWN\n", offset));
                ip += 1;
            }
        }
    }
    output
}

#[test]
fn test_compile_literal() {
    let expr = Expr::lit(bits(42.0));
    let code = Compiler::compile(&expr).unwrap();

    assert_eq!(code.len(), 9);
    assert_eq!(code[0], OpCode::LITERAL.to_byte());

    let bytes: [u8; 8] = [code[1], code[2], code[3], code[4], code[5], code[6], code[7], code[8]];
    assert_eq!(f64::from_be_bytes(bytes), 42.0);
}

#[test]
fn test_compile_variable() {
    let expr = Expr::var("temp");
    let code = Compiler::compile(&expr).unwrap();

    assert_eq!(code[0], OpCode::LOAD_VAR.to_byte());
    let len = u16::from_be_bytes([code[1], code[2]]);
    assert_eq!(len, 4);
    assert_eq!(&code[3..7], b"temp");
}

#[test]
fn test_compile_chaotic() {
    let expr = Expr::chaotic(bits(101.0), bits(0.1));
    let code = Compiler::compile(&expr).unwrap();

    assert_eq!(code[0], OpCode::CHAOTIC.to_byte());
    let mean_bytes: [u8; 8] = [code[1], code[2], code[3], code[4], code[5], code[6], code[7], code[8]];
    let var_bytes: [u8; 8] = [code[9], code[10], code[11], code[12], code[13], code[14], code[15], code[16]];
    assert_eq!(f64::from_be_bytes(mean_bytes), 101.0);
    assert_eq!(f64::from_be_bytes(var_bytes), 0.1);
}

#[test]
fn test_compile_let() {
    let expr = Expr::let_binding("x", Expr::lit(bits(42.0)));
    let code = Compiler::compile(&expr).unwrap();

    assert_eq!(code[0], OpCode::LITERAL.to_byte());
    let offset_let = 9;
    assert_eq!(code[offset_let], OpCode::LET.to_byte());
    let len = u16::from_be_bytes([code[offset_let + 1], code[offset_let + 2]]);
    assert_eq!(len, 1);
    assert_eq!(code[offset_let + 3], b'x');
    assert_eq!(code.len(), offset_let + 4);
}

#[test]
fn test_compile_block() {
    let expr = Expr::block(vec![
        Expr::let_binding("x", Expr::lit(bits(1.0))),
        Expr::let_binding("y", Expr::lit(bits(2.0))),
        Expr::add(Expr::var("x"), Expr::var("y")),
    ]);
    let code = Compiler::compile(&expr).unwrap();

    assert_eq!(code[0], OpCode::LITERAL.to_byte());
    assert_eq!(code[1..9], [0x3F, 0xF0, 0x00, 0x00, 0x00, 0x00, 0x00, 0x00]);

    assert_eq!(code[9], OpCode::LET.to_byte());
    assert_eq!(code[10..12], [0x00, 0x01]);
    assert_eq!(code[12], b'x');

    assert_eq!(code[13], OpCode::LITERAL.to_byte());
    assert_eq!(code[14..22], [0x40, 0x00, 0x00, 0x00, 0x00, 0x00, 0x00, 0x00]);

    assert_eq!(code[22], OpCode::LET.to_byte());
    assert_eq!(code[23..25], [0x00, 0x01]);
    assert_eq!(code[25], b'y');

    assert_eq!(code[26], OpCode::LOAD_VAR.to_byte());
    assert_eq!(code[27..29], [0x00, 0x01]);
    assert_eq!(code[29], b'x');

    assert_eq!(code[30], OpCode::LOAD_VAR.to_byte());
    assert_eq!(code[31..33], [0x00, 0x01]);
    assert_eq!(code[33], b'y');

    assert_eq!(code[34], OpCode::ADD.to_byte());
}

#[test]
fn test_compile_add() {
    let expr = Expr::add(Expr::var("x"), Expr::var("y"));
    let code = Compiler::compile(&expr).unwrap();

    assert_eq!(code[0], OpCode::LOAD_VAR.to_byte());
    let len_x = u16::from_be_bytes([code[1], code[2]]) as usize;
    let offset_y = 3 + len_x;
    assert_eq!(code[offset_y], OpCode::LOAD_VAR.to_byte());
    let len_y = u16::from_be_bytes([code[offset_y + 1], code[offset_y + 2]]) as usize;
    let offset_add = offset_y + 3 + len_y;
    assert_eq!(code[offset_add], OpCode::ADD.to_byte());
}

#[test]
fn test_compile_propagate() {
    let expr = Expr::propagate(Expr::var("x"), bits(2.5));
    let code = Compiler::compile(&expr).unwrap();

    assert_eq!(code[0], OpCode::LOAD_VAR.to_byte());
    let len = u16::from_be_bytes([code[1], code[2]]) as usize;
    let offset_prop = 3 + len;
    assert_eq!(code[offset_prop], OpCode::PROPAGATE.to_byte());

    let bytes: [u8; 8] = [
        code[offset_prop + 1], code[offset_prop + 2], code[offset_prop + 3], code[offset_prop + 4],
        code[offset_prop + 5], code[offset_prop + 6], code[offset_prop + 7], code[offset_prop + 8],
    ];
    assert_eq!(f64::from_be_bytes(bytes), 2.5);
}

#[test]
fn test_compile_collapse() {
    let expr = Expr::collapse(Expr::var("x"));
    let code = Compiler::compile(&expr).unwrap();

    assert_eq!(code[0], OpCode::LOAD_VAR.to_byte());
    let len = u16::from_be_bytes([code[1], code[2]]) as usize;
    let offset_collapse = 3 + len;
    assert_eq!(code[offset_collapse], OpCode::COLLAPSE.to_byte());
}

#[test]
fn test_compile_complex_expression() {
    let expr = Expr::collapse(Expr::propagate(Expr::add(Expr::var("x"), Expr::var("y")), bits(1.0)));
    let code = Compiler::compile(&expr).unwrap();

    assert_eq!(code[0], OpCode::LOAD_VAR.to_byte());
    assert_eq!(code[1], 0);
    assert_eq!(code[2], 1);
    assert_eq!(code[3], b'x');

    assert_eq!(code[4], OpCode::LOAD_VAR.to_byte());
    assert_eq!(code[5], 0);
    assert_eq!(code[6], 1);
    assert_eq!(code[7], b'y');

    assert_eq!(code[8], OpCode::ADD.to_byte());

    assert_eq!(code[9], OpCode::PROPAGATE.to_byte());
    assert_eq!(code[10..18], [0x3F, 0xF0, 0x00, 0x00, 0x00, 0x00, 0x00, 0x00]);

    assert_eq!(code[18], OpCode::COLLAPSE.to_byte());
}

#[test]
fn test_disassemble_literal() {
    let expr = Expr::lit(bits(1.0));
    let code = Compiler::compile(&expr).unwrap();
    let dis = disassemble(&code);
    assert!(dis.contains("LITERAL 1"));
}

#[test]
fn test_disassemble_chaotic() {
    let expr = Expr::chaotic(bits(101.0), bits(0.1));
    let code = Compiler::compile(&expr).unwrap();
    let dis = disassemble(&code);
    assert!(dis.contains("CHAOTIC(101"));
    assert!(dis.contains("0.1"));
}

#[test]
fn test_disassemble_let() {
    let expr = Expr::let_binding("x", Expr::lit(bits(42.0)));
    let code = Compiler::compile(&expr).unwrap();
    let dis = disassemble(&code);
    assert!(dis.contains("LET \"x\""));
    assert!(!dis.contains("POP"));
}

#[test]
fn test_opcode_roundtrip() {
    assert_eq!(OpCode::from_byte(0x01), Some(OpCode::LOAD_VAR));
    assert_eq!(OpCode::from_byte(0x02), Some(OpCode::LITERAL));
    assert_eq!(OpCode::from_byte(0x03), Some(OpCode::ADD));
    assert_eq!(OpCode::from_byte(0x04), Some(OpCode::PROPAGATE));
    assert_eq!(OpCode::from_byte(0x05), Some(OpCode::COLLAPSE));
    assert_eq!(OpCode::from_byte(0x06), Some(OpCode::CHAOTIC));
    assert_eq!(OpCode::from_byte(0x07), Some(OpCode::LET));
    assert_eq!(OpCode::from_byte(0x08), Some(OpCode::POP));
    assert_eq!(OpCode::from_byte(0xFF), None);
}

#[test]
fn test_long_variable_name() {
    let name = "a_very_long_variable_name_that_exceeds_255_bytes_".repeat(10);
    let expr = Expr::var(&name);
    let code = Compiler::compile(&expr).unwrap();

    let len = u16::from_be_bytes([code[1], code[2]]) as usize;
    assert_eq!(len, name.len());
    let decoded = String::from_utf8_lossy(&code[3..3 + len]);
    assert_eq!(decoded.as_ref(), name);
}

#[test]
fn opcode_bytes_are_read_back() {
    let all = [
        OpCode::LOAD_VAR,
        OpCode::LITERAL,
        OpCode::ADD,
        OpCode::PROPAGATE,
        OpCode::COLLAPSE,
        OpCode::CHAOTIC,
        OpCode::LET,
        OpCode::POP,
    ];
    for (i, op) in all.iter().enumerate() {
        assert_eq!(op.to_byte(), (i + 1) as u8);
        assert_eq!(OpCode::from_byte(op.to_byte()), Some(*op));
    }
    assert_eq!(OpCode::from_byte(0x00), None);
    assert_eq!(OpCode::from_byte(0x09), None);
}

#[test]
fn block_pops_between_expressions_but_not_after_let_or_last() {
    let expr = Expr::block(vec![
        Expr::lit(bits(1.0)),
        Expr::let_binding("x", Expr::lit(bits(2.0))),
        Expr::var("x"),
    ]);
    let code = Compiler::compile(&expr).unwrap();
    // LITERAL 1.0, POP, LITERAL 2.0, LET "x", LOAD_VAR "x"
    assert_eq!(code.len(), 9 + 1 + 9 + 4 + 4);
    assert_eq!(code[9], OpCode::POP.to_byte());
    assert_eq!(code[19], OpCode::LET.to_byte());
    assert_eq!(code[23], OpCode::LOAD_VAR.to_byte());
}

#[test]
fn name_length_is_utf8_bytes() {
    let expr = Expr::var("é");
    let code = Compiler::compile(&expr).unwrap();
    assert_eq!(code, vec![0x01, 0x00, 0x02, 0xC3, 0xA9]);
}

#[test]
fn name_length_wraps_at_sixteen_bits() {
    let name = "a".repeat(65536 + 3);
    let code = Compiler::compile(&Expr::var(&name)).unwrap();
    assert_eq!(code[1], 0);
    assert_eq!(code[2], 3);
    assert_eq!(code.len(), 3 + 65539);
}

#[test]
fn default_compiler_and_empty_block() {
    let _ = Compiler::default();
    let _ = Compiler::new();
    let code = Compiler::compile(&Expr::block(vec![])).unwrap();
    assert!(code.is_empty());
}

#[test]
fn compile_expr_appends_and_never_fails() {
    let mut c = Compiler::new();
    assert_eq!(c.compile_expr(&Expr::block(vec![])), Ok(()));
    assert_eq!(c.compile_expr(&Expr::var("x")), Ok(()));
    let block = Expr::block(vec![Expr::var("a"), Expr::let_binding("b", Expr::var("a")), Expr::var("b")]);
    let code = Compiler::compile(&block).unwrap();
    let mut expected = Compiler::compile(&Expr::var("a")).unwrap();
    expected.push(0x08);
    expected.extend(Compiler::compile(&Expr::let_binding("b", Expr::var("a"))).unwrap());
    expected.extend(Compiler::compile(&Expr::var("b")).unwrap());
    assert_eq!(code, expected);
    assert_eq!(Compiler::compile(&Expr::block(vec![])).unwrap(), Vec::<u8>::new());
}
