use lorenz::eval::eval_error;
use lorenz::state::SystemState;
use lorenz::ast::{EvalError, Expr};
use lorenz::lexer::{LexError, Lexer, Token};
use lorenz::parser::{parse, ParseError, Parser};

fn float_bits(s: &str) -> Option<u64> {
    s.parse::<f64>().ok().map(f64::to_bits)
}

fn bits(x: f64) -> u64 {
    x.to_bits()
}

#[test]
fn test_lexer_simple_variable() {
    let mut lexer = Lexer::new("temp");
    let tokens = lexer.tokenize(&float_bits).unwrap();
    assert_eq!(tokens, vec![Token::Identifier("temp".to_string())]);
}

#[test]
fn test_lexer_number() {
    let mut lexer = Lexer::new("42.5");
    let tokens = lexer.tokenize(&float_bits).unwrap();
    assert_eq!(tokens, vec![Token::Number(bits(42.5))]);
}

#[test]
fn test_lexer_keywords() {
    let mut lexer = Lexer::new("let chaotic = chaotic(1.0, 2.0)");
    let tokens = lexer.tokenize(&float_bits).unwrap();
    assert_eq!(
        tokens,
        vec![
            Token::Let,
            Token::Chaotic,
            Token::Equals,
            Token::Chaotic,
            Token::LParen,
            Token::Number(bits(1.0)),
            Token::Comma,
            Token::Number(bits(2.0)),
            Token::RParen,
        ]
    );
}

#[test]
fn test_lexer_operators() {
    let mut lexer = Lexer::new("a + b; c = d");
    let tokens = lexer.tokenize(&float_bits).unwrap();
    assert_eq!(
        tokens,
        vec![
            Token::Identifier("a".to_string()),
            Token::Plus,
            Token::Identifier("b".to_string()),
            Token::Semicolon,
            Token::Identifier("c".to_string()),
            Token::Equals,
            Token::Identifier("d".to_string()),
        ]
    );
}

#[test]
fn test_lexer_unexpected_char() {
    let mut lexer = Lexer::new("temp @ invalid");
    assert!(lexer.tokenize(&float_bits).is_err());
}

#[test]
fn test_parse_literal() {
    let mut parser = Parser::new("42.5", &float_bits).unwrap();
    let expr = parser.parse().unwrap();
    assert_eq!(expr, Expr::Literal(bits(42.5)));
}

#[test]
fn test_parse_variable() {
    let mut parser = Parser::new("temp", &float_bits).unwrap();
    let expr = parser.parse().unwrap();
    assert_eq!(expr, Expr::Var("temp".to_string()));
}

#[test]
fn test_parse_addition() {
    let mut parser = Parser::new("temp + humidity", &float_bits).unwrap();
    let expr = parser.parse().unwrap();
    assert_eq!(
        expr,
        Expr::Add(
            Box::new(Expr::Var("temp".to_string())),
            Box::new(Expr::Var("humidity".to_string())),
        )
    );
}

#[test]
fn test_parse_propagate() {
    let mut parser = Parser::new("propagate(temp, 2.0)", &float_bits).unwrap();
    let expr = parser.parse().unwrap();
    assert_eq!(expr, Expr::Propagate(Box::new(Expr::Var("temp".to_string())), bits(2.0)));
}

#[test]
fn test_parse_collapse() {
    let mut parser = Parser::new("collapse(temp)", &float_bits).unwrap();
    let expr = parser.parse().unwrap();
    assert_eq!(expr, Expr::Collapse(Box::new(Expr::Var("temp".to_string()))));
}

#[test]
fn test_parse_chaotic() {
    let mut parser = Parser::new("chaotic(101.0, 0.1)", &float_bits).unwrap();
    let expr = parser.parse().unwrap();
    assert_eq!(expr, Expr::ChaoticConstructor(bits(101.0), bits(0.1)));
}

#[test]
fn test_parse_let_statement() {
    let mut parser = Parser::new("let x = 42.0", &float_bits).unwrap();
    let expr = parser.parse().unwrap();
    assert_eq!(expr, Expr::Let("x".to_string(), Box::new(Expr::Literal(bits(42.0)))));
}

#[test]
fn test_parse_let_with_chaotic() {
    let mut parser = Parser::new("let pressure = chaotic(101.0, 0.1)", &float_bits).unwrap();
    let expr = parser.parse().unwrap();
    assert_eq!(
        expr,
        Expr::Let("pressure".to_string(), Box::new(Expr::ChaoticConstructor(bits(101.0), bits(0.1))))
    );
}

#[test]
fn test_parse_block() {
    let code = "let x = 1.0\nlet y = 2.0\nx + y";
    let mut parser = Parser::new(code, &float_bits).unwrap();
    let expr = parser.parse().unwrap();
    match expr {
        Expr::Block(stmts) => {
            assert_eq!(stmts.len(), 3);
            assert_eq!(stmts[0], Expr::Let("x".to_string(), Box::new(Expr::Literal(bits(1.0)))));
            assert_eq!(stmts[1], Expr::Let("y".to_string(), Box::new(Expr::Literal(bits(2.0)))));
            assert_eq!(
                stmts[2],
                Expr::Add(Box::new(Expr::Var("x".to_string())), Box::new(Expr::Var("y".to_string())))
            );
        }
        _ => panic!("Expected Block"),
    }
}

#[test]
fn test_parse_complex_expression() {
    let mut parser = Parser::new("propagate(temp + humidity, 5.0)", &float_bits).unwrap();
    let expr = parser.parse().unwrap();
    assert_eq!(
        expr,
        Expr::Propagate(
            Box::new(Expr::Add(
                Box::new(Expr::Var("temp".to_string())),
                Box::new(Expr::Var("humidity".to_string())),
            )),
            bits(5.0),
        )
    );
}

#[test]
fn test_parse_parentheses() {
    let mut parser = Parser::new("(temp + humidity)", &float_bits).unwrap();
    let expr = parser.parse().unwrap();
    assert_eq!(
        expr,
        Expr::Add(
            Box::new(Expr::Var("temp".to_string())),
            Box::new(Expr::Var("humidity".to_string())),
        )
    );
}

#[test]
fn test_parse_missing_rparen() {
    let mut parser = Parser::new("(temp + humidity", &float_bits).unwrap();
    assert!(parser.parse().is_err());
}

#[test]
fn test_parse_trailing_tokens() {
    let mut parser = Parser::new("temp +", &float_bits).unwrap();
    assert!(parser.parse().is_err());
}

#[test]
fn test_parse_add_same_var_twice() {
    let mut parser = Parser::new("pressure + pressure", &float_bits).unwrap();
    let expr = parser.parse().unwrap();
    assert_eq!(
        expr,
        Expr::Add(
            Box::new(Expr::Var("pressure".to_string())),
            Box::new(Expr::Var("pressure".to_string())),
        )
    );
}

#[test]
fn test_parse_negative_number() {
    let mut parser = Parser::new("-3.14", &float_bits).unwrap();
    let expr = parser.parse().unwrap();
    assert_eq!(expr, Expr::Literal(bits(-3.14)));
}

#[test]
fn test_parse_empty_input() {
    let mut parser = Parser::new("", &float_bits).unwrap();
    assert!(parser.parse().is_err());
}

#[test]
fn test_parse_full_program() {
    let code = "let pressure = chaotic(101.0, 0.1)\nlet temp = chaotic(20.0, 0.5)\ncollapse(propagate(pressure + temp, 1.0))";
    let mut parser = Parser::new(code, &float_bits).unwrap();
    let expr = parser.parse().unwrap();
    match expr {
        Expr::Block(stmts) => {
            assert_eq!(stmts.len(), 3);
            assert!(matches!(&stmts[0], Expr::Let(name, _) if name == "pressure"));
            assert!(matches!(&stmts[1], Expr::Let(name, _) if name == "temp"));
            assert!(matches!(&stmts[2], Expr::Collapse(_)));
        }
        _ => panic!("Expected Block, got {:?}", expr),
    }
}

#[test]
fn test_expr_helpers() {
    let expr = Expr::collapse(Expr::propagate(Expr::add(Expr::var("x"), Expr::lit(bits(1.0))), bits(0.5)));

    match expr {
        Expr::Collapse(inner) => match *inner {
            Expr::Propagate(inner2, t) => {
                assert!((f64::from_bits(t) - 0.5).abs() < f64::EPSILON);
                match *inner2 {
                    Expr::Add(left, right) => {
                        assert_eq!(*left, Expr::Var("x".to_string()));
                        assert_eq!(*right, Expr::Literal(bits(1.0)));
                    }
                    _ => panic!("Expected Add"),
                }
            }
            _ => panic!("Expected Propagate"),
        },
        _ => panic!("Expected Collapse"),
    }
}

#[test]
fn lexer_errors_are_classified() {
    assert_eq!(Lexer::new("x @").tokenize(&float_bits), Err(LexError::UnexpectedChar('@')));
    assert_eq!(Lexer::new("1 + -").tokenize(&float_bits), Err(LexError::ExpectedNumber));
    assert_eq!(
        Lexer::new("-.").tokenize(&float_bits),
        Err(LexError::InvalidNumber("-.".to_string()))
    );
    // The first error in reading order wins.
    assert_eq!(Lexer::new("-. @").tokenize(&float_bits), Err(LexError::InvalidNumber("-.".to_string())));
    assert_eq!(Lexer::new("@ -.").tokenize(&float_bits), Err(LexError::UnexpectedChar('@')));
}

#[test]
fn lexer_number_shapes() {
    let toks = Lexer::new("5. .5x -2 7").tokenize(&float_bits);
    // '.' does not start a token
    assert_eq!(toks, Err(LexError::UnexpectedChar('.')));
    let toks = Lexer::new("5. -2 7").tokenize(&float_bits).unwrap();
    assert_eq!(toks, vec![Token::Number(bits(5.0)), Token::Number(bits(-2.0)), Token::Number(bits(7.0))]);
    // a minus directly before digits belongs to the number
    let toks = Lexer::new("a-1").tokenize(&float_bits).unwrap();
    assert_eq!(toks, vec![Token::Identifier("a".to_string()), Token::Number(bits(-1.0))]);
}

#[test]
fn lexer_skips_blanks_and_newlines() {
    let toks = Lexer::new("  x\t\n\n+\r y  ").tokenize(&float_bits).unwrap();
    assert_eq!(
        toks,
        vec![Token::Identifier("x".to_string()), Token::Plus, Token::Identifier("y".to_string())]
    );
    assert_eq!(Lexer::new("   \n ").tokenize(&float_bits).unwrap(), vec![]);
}

#[test]
fn lexer_identifiers_take_letters_digits_underscores() {
    let toks = Lexer::new("_a1b letx chaotic2").tokenize(&float_bits).unwrap();
    assert_eq!(
        toks,
        vec![
            Token::Identifier("_a1b".to_string()),
            Token::Identifier("letx".to_string()),
            Token::Identifier("chaotic2".to_string()),
        ]
    );
}

#[test]
fn lexer_uses_the_given_conversion() {
    let reject = |_: &str| -> Option<u64> { None };
    assert_eq!(Lexer::new("x 12").tokenize(&reject), Err(LexError::InvalidNumber("12".to_string())));
    let constant = |_: &str| -> Option<u64> { Some(7) };
    assert_eq!(Lexer::new("12").tokenize(&constant).unwrap(), vec![Token::Number(7)]);
}

#[test]
fn parser_errors_are_classified() {
    let p = |s: &str| parse(s, &float_bits);
    assert_eq!(p(""), Err(ParseError::EmptyInput));
    assert_eq!(p(";;"), Err(ParseError::EmptyInput));
    assert_eq!(p("temp +"), Err(ParseError::UnexpectedEnd));
    assert_eq!(p(")"), Err(ParseError::UnexpectedRParen));
    assert_eq!(p("= 1"), Err(ParseError::UnexpectedToken(Token::Equals)));
    assert_eq!(
        p("(temp + humidity"),
        Err(ParseError::Expected { expected: Token::RParen, found: None })
    );
    assert_eq!(
        p("propagate(x 1.0)"),
        Err(ParseError::Expected { expected: Token::Comma, found: Some(Token::Number(bits(1.0))) })
    );
    assert_eq!(
        p("propagate(x, y)"),
        Err(ParseError::ExpectedNumber { found: Some(Token::Identifier("y".to_string())) })
    );
    assert_eq!(p("chaotic(1.0,"), Err(ParseError::ExpectedNumber { found: None }));
    assert_eq!(p("let 3 = 4"), Err(ParseError::ExpectedIdentifier { found: Some(Token::Number(bits(3.0))) }));
    assert_eq!(p("let"), Err(ParseError::ExpectedIdentifier { found: None }));
    assert_eq!(p("x @"), Err(ParseError::Lex(LexError::UnexpectedChar('@'))));
    assert!(Parser::new("x @", &float_bits).is_err());
}

#[test]
fn parser_statements_and_blocks() {
    let p = |s: &str| parse(s, &float_bits);
    // semicolons separate statements like newlines, and may repeat
    let e = p(";x;; y;").unwrap();
    assert_eq!(e, Expr::Block(vec![Expr::Var("x".to_string()), Expr::Var("y".to_string())]));
    // addition is left-associative
    let e = p("a + b + c").unwrap();
    assert_eq!(
        e,
        Expr::Add(
            Box::new(Expr::Add(Box::new(Expr::Var("a".to_string())), Box::new(Expr::Var("b".to_string())))),
            Box::new(Expr::Var("c".to_string())),
        )
    );
    // statements follow each other without a separator
    let e = p("x y").unwrap();
    assert_eq!(e, Expr::Block(vec![Expr::Var("x".to_string()), Expr::Var("y".to_string())]));
    // `propagate` and `collapse` are plain names outside a call
    assert_eq!(p("collapse").unwrap_err(), ParseError::Expected { expected: Token::LParen, found: None });
}

#[test]
fn parse_expr_reads_one_expression() {
    let mut parser = Parser::new("a + 1 b", &float_bits).unwrap();
    let e = parser.parse_expr().unwrap();
    assert_eq!(e, Expr::Add(Box::new(Expr::Var("a".to_string())), Box::new(Expr::Literal(bits(1.0)))));
    let rest = parser.parse().unwrap();
    assert_eq!(rest, Expr::Var("b".to_string()));
}

#[test]
fn eval_error_message() {
    assert_eq!(
        EvalError::VarNotFound("humidity".to_string()).message(),
        "variable 'humidity' not found in system state"
    );
}

#[test]
fn lexer_reads_characters_one_by_one() {
    let mut lx = Lexer::new(" \t x\n y");
    assert_eq!(lx.peek(), Some(' '));
    lx.skip_whitespace();
    assert_eq!(lx.peek(), Some('x'));
    assert_eq!(lx.advance(), Some('x'));
    lx.skip_whitespace();
    assert_eq!(lx.peek(), Some('\n'));
    assert_eq!(lx.advance(), Some('\n'));
    lx.skip_whitespace();
    assert_eq!(lx.advance(), Some('y'));
    assert_eq!(lx.advance(), None);
    assert_eq!(lx.peek(), None);
}

#[test]
fn parse_readme_program_with_comments() {
    let source = "// Define chaotic variables: chaotic(mean, initial_variance)\nlet base_temp = chaotic(100.0, 0.5)\nlet coolant_flow = chaotic(20.0, 0.1)\n\n// Propagate system forward in time and collapse the probability wave\ncollapse(propagate(base_temp + coolant_flow, 3.0))";
    let expected = Expr::block(vec![
        Expr::let_binding("base_temp", Expr::chaotic(bits(100.0), bits(0.5))),
        Expr::let_binding("coolant_flow", Expr::chaotic(bits(20.0), bits(0.1))),
        Expr::collapse(Expr::propagate(
            Expr::add(Expr::var("base_temp"), Expr::var("coolant_flow")),
            bits(3.0),
        )),
    ]);
    assert_eq!(parse(source, &float_bits), Ok(expected));
}

#[test]
fn parse_docs_program_with_comments() {
    let source = "// Define chaotic variables with initial uncertainty\nlet pressure = chaotic(101.0, 0.1)\nlet temperature = chaotic(20.0, 0.5)\n\n// Propagate forward in time (variance grows exponentially)\nlet evolved_pressure = propagate(pressure, 1.0)\n\n// Add variables (covariance-aware)\nlet system = evolved_pressure + temperature\n\n// Collapse to a single measurement\nlet result = collapse(system)\n\n// Output: 121.61075678309253\n";
    let expected = Expr::block(vec![
        Expr::let_binding("pressure", Expr::chaotic(bits(101.0), bits(0.1))),
        Expr::let_binding("temperature", Expr::chaotic(bits(20.0), bits(0.5))),
        Expr::let_binding("evolved_pressure", Expr::propagate(Expr::var("pressure"), bits(1.0))),
        Expr::let_binding("system", Expr::add(Expr::var("evolved_pressure"), Expr::var("temperature"))),
        Expr::let_binding("result", Expr::collapse(Expr::var("system"))),
    ]);
    assert_eq!(parse(source, &float_bits), Ok(expected));
}

#[test]
fn comments_run_to_the_end_of_the_line() {
    assert_eq!(
        Lexer::new("x // y + (\nz").tokenize(&float_bits),
        Ok(vec![Token::Identifier("x".to_string()), Token::Identifier("z".to_string())])
    );
    assert_eq!(Lexer::new("// only a comment").tokenize(&float_bits), Ok(vec![]));
    assert_eq!(Lexer::new("x / y").tokenize(&float_bits), Err(LexError::UnexpectedChar('/')));
    assert_eq!(Lexer::new("x /").tokenize(&float_bits), Err(LexError::UnexpectedChar('/')));
    assert_eq!(parse("// nothing\n", &float_bits), Err(ParseError::EmptyInput));
}

#[test]
fn whitespace_only_separates_tokens() {
    let toks = |s: &str| Lexer::new(s).tokenize(&float_bits);
    let base = toks("let a = chaotic(1.0, 2.0)\ncollapse(a + -3.5)");
    assert!(base.is_ok());
    assert_eq!(toks("let\ta =\u{3000}chaotic(1.0,\u{a0}2.0) collapse(a\u{2028}+\r-3.5)"), base);
    assert_eq!(toks(" \n\tlet a = chaotic(1.0, 2.0)\ncollapse(a + -3.5)\n\u{85} "), base);
    assert_eq!(toks("x\t// note\ny"), toks("x // note\n  y"));
    assert_eq!(toks("x\n// c\ny"), toks("x // c\ny"));
    assert_eq!(toks("x // c\ny").unwrap().len(), 2);
    assert_eq!(toks("1 + @"), toks("\u{2003}1\t+ @ "));
}

fn error_text(e: &ParseError) -> String {
    e.message(
        &|b: u64| format!("{:?}", f64::from_bits(b)),
        &|l: &str| match l.parse::<f64>() {
            Err(r) => r.to_string(),
            Ok(_) => String::new(),
        },
    )
}

#[test]
fn parse_error_messages() {
    let msg = |s: &str| error_text(&parse(s, &float_bits).unwrap_err());
    assert_eq!(msg("propagate(x 1.0)"), "Expected Comma, found Number(1.0)");
    assert_eq!(msg("collapse(x"), "Expected RParen, found end of input");
    assert_eq!(msg("let 5 = x"), "Expected identifier after 'let', found Number(5.0)");
    assert_eq!(msg("let = x"), "Expected identifier after 'let', found Equals");
    assert_eq!(msg("chaotic(x, 1.0)"), "Expected number, found Identifier(\"x\")");
    assert_eq!(msg("chaotic(1.0,"), "Expected number, found end of input");
    assert_eq!(msg(")"), "Unexpected ')'");
    assert_eq!(msg("+"), "Unexpected token: Plus");
    assert_eq!(msg("x +"), "Unexpected end of expression");
    assert_eq!(msg(""), "Empty input");
    assert_eq!(msg("-"), "Expected number");
    assert_eq!(msg("-."), "Invalid number '-.': invalid float literal");
    assert_eq!(msg("x @"), "Unexpected character: '@'");
}

#[test]
fn eval_errors_come_in_evaluation_order() {
    let mut state: SystemState<u32> = SystemState::new();
    state.add_var("temperature".to_string(), 1);
    let e = |s: &str| eval_error(&parse(s, &float_bits).unwrap(), &state);
    assert_eq!(e("temperature + 1.0"), None);
    assert_eq!(e("collapse(propagate(temperature, 1.0))"), None);
    assert_eq!(e("nonexistent"), Some(EvalError::VarNotFound("nonexistent".to_string())));
    assert_eq!(e("temperature + a + b"), Some(EvalError::VarNotFound("a".to_string())));
    assert_eq!(e("let x = q\nx"), Some(EvalError::VarNotFound("q".to_string())));
    assert_eq!(e("temperature; chaotic(1.0, 2.0); w"), Some(EvalError::VarNotFound("w".to_string())));
    assert_eq!(eval_error(&Expr::block(vec![]), &state), Some(EvalError::VarNotFound("empty block".to_string())));
}

#[test]
fn parse_is_new_then_parse() {
    for src in ["x + 1.0", "let a = chaotic(1.0, 2.0)\na", "@", "1.2.3", "collapse(", "", "-.", "// c\ny"] {
        let direct = parse(src, &float_bits);
        let staged = Parser::new(src, &float_bits).and_then(|mut p| p.parse());
        assert_eq!(direct, staged);
    }
}
