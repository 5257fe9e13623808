use minilang::compiler::Compiler;
use minilang::lexer::{Lexer, Token};
use minilang::parser::{ParseError, Parser, Statement};
use minilang::{Opcode, VM};

fn run_source(src: &str, stack_limit: usize) -> VM {
    let mut parser = Parser::new(src);
    let statements = parser.parse_program().expect("parse failed");
    let mut compiler = Compiler::new();
    let bytecode = compiler.compile(statements);
    let mut vm = VM::new(bytecode, stack_limit);
    vm.run().expect("run failed");
    vm
}

#[test]
fn scenario_let_and_print_with_precedence() {
    // let x = 10; let y = 5; print x + y * 2;
    let vm = run_source("let x = 10; let y = 5; print x + y * 2;", 64);
    assert_eq!(vm.get_memory().get(&0), Some(&10));
    assert_eq!(vm.get_memory().get(&1), Some(&5));
    assert_eq!(vm.get_output(), &[20]);
    assert_eq!(vm.get_stack(), &[] as &[i64]);
}

#[test]
fn scenario_while_loop_prints_in_order() {
    let vm = run_source("let x = 0; while x < 3 ( print x; x = x + 1; )", 64);
    assert_eq!(vm.get_output(), &[0, 1, 2]);
    assert_eq!(vm.get_memory().get(&0), Some(&3));
}

#[test]
fn scenario_greater_than_desugars_to_reversed_less() {
    let vm = run_source("let a = 7; let b = 3; print a > b;", 64);
    assert_eq!(vm.get_output(), &[1]);
}

#[test]
fn scenario_greater_than_with_compound_operands() {
    // compound operands break any byte-swapping scheme; the
    // desugaring compiles the right operand first instead
    let vm = run_source("let a = 2; let b = 3; print a + 2 > b + 5;", 64);
    assert_eq!(vm.get_output(), &[0]);
    let vm = run_source("let a = 4; let b = 1; print a + 2 > b + 3;", 64);
    assert_eq!(vm.get_output(), &[1]);
}

#[test]
fn scenario_if_else_branches() {
    let vm = run_source("let x = 1; if x == 1 ( print 10; ) else ( print 20; )", 64);
    assert_eq!(vm.get_output(), &[10]);
    let vm = run_source("let x = 2; if x == 1 ( print 10; ) else ( print 20; )", 64);
    assert_eq!(vm.get_output(), &[20]);
    let vm = run_source("let x = 5; if x < 3 print 1; print 99;", 64);
    assert_eq!(vm.get_output(), &[99]);
}

#[test]
fn scenario_same_source_twice_is_deterministic() {
    let src = "let n = 6; let acc = 1; while 0 < n ( acc = acc * n; n = n - 1; ) print acc;";
    let vm1 = run_source(src, 64);
    let vm2 = run_source(src, 64);
    assert_eq!(vm1.get_stack(), vm2.get_stack());
    assert_eq!(vm1.get_memory(), vm2.get_memory());
    assert_eq!(vm1.get_output(), vm2.get_output());
    assert_eq!(vm1.get_output(), &[720]);
}

#[test]
fn lexer_produces_expected_tokens() {
    let mut lexer = Lexer::new("let x1 = 42; if else while print == = < > + - * / ( ) ;");
    let expected = [
        Token::Let,
        Token::Identifier("x1".to_string()),
        Token::Equals,
        Token::Number(42),
        Token::Semicolon,
        Token::If,
        Token::Else,
        Token::While,
        Token::Print,
        Token::DoubleEquals,
        Token::Equals,
        Token::LessThan,
        Token::GreaterThan,
        Token::Plus,
        Token::Minus,
        Token::Star,
        Token::Slash,
        Token::LParen,
        Token::RParen,
        Token::Semicolon,
    ];
    for t in expected {
        assert_eq!(lexer.next_token(), Some(t));
    }
    assert_eq!(lexer.next_token(), None);
}

#[test]
fn lexer_stops_at_unrecognized_character() {
    let mut lexer = Lexer::new("let @ x");
    assert_eq!(lexer.next_token(), Some(Token::Let));
    assert_eq!(lexer.next_token(), None);
    // a later call still yields nothing: the cursor did not move
    assert_eq!(lexer.next_token(), None);
}

#[test]
fn lexer_rejects_oversized_number() {
    let mut lexer = Lexer::new("9223372036854775808");
    assert_eq!(lexer.next_token(), None);
    let mut lexer = Lexer::new("9223372036854775807");
    assert_eq!(lexer.next_token(), Some(Token::Number(i64::MAX)));
}

#[test]
fn parser_builds_statement_shapes() {
    let mut parser = Parser::new("let x = 1; x = x + 2; print x; if x ( print 1; ) while 0 print 2;");
    let program = parser.parse_program().expect("parse failed");
    assert_eq!(program.len(), 5);
    assert!(matches!(program[0], Statement::Let(..)));
    assert!(matches!(program[1], Statement::Assign(..)));
    assert!(matches!(program[2], Statement::Print(..)));
    assert!(matches!(program[3], Statement::If(..)));
    assert!(matches!(program[4], Statement::While(..)));
}

#[test]
fn parser_reports_expected_token() {
    let mut parser = Parser::new("let x 1;");
    match parser.parse_program() {
        Err(ParseError::Expected(Token::Equals, Some(Token::Number(1)))) => {},
        other => panic!("unexpected parse result: {:?}", other),
    }
}

#[test]
fn parser_reports_missing_identifier_and_statement() {
    let mut parser = Parser::new("let 5 = 1;");
    assert!(matches!(parser.parse_program(), Err(ParseError::ExpectedIdentifier)));
    let mut parser = Parser::new("+ 1;");
    assert!(matches!(parser.parse_program(), Err(ParseError::ExpectedStatement)));
    let mut parser = Parser::new("let x = ;");
    assert!(matches!(parser.parse_program(), Err(ParseError::ExpectedExpression)));
}

#[test]
fn compiler_emits_documented_encoding() {
    let mut parser = Parser::new("print 7;");
    let program = parser.parse_program().unwrap();
    let mut compiler = Compiler::new();
    let bytecode = compiler.compile(program);
    assert_eq!(
        bytecode,
        vec![0x01, 7, 0, 0, 0, 0, 0, 0, 0, 0x0D, 0xFF],
    );
}

#[test]
fn compiler_store_pushes_address_then_value() {
    let mut parser = Parser::new("let x = 10;");
    let program = parser.parse_program().unwrap();
    let mut compiler = Compiler::new();
    let bytecode = compiler.compile(program);
    let mut expected = Vec::new();
    expected.push(Opcode::Push.as_byte());
    expected.extend_from_slice(&0i64.to_le_bytes()); // address 0
    expected.push(Opcode::Push.as_byte());
    expected.extend_from_slice(&10i64.to_le_bytes()); // value
    expected.push(Opcode::Store.as_byte());
    expected.push(Opcode::Halt.as_byte());
    assert_eq!(bytecode, expected);
}

#[test]
fn compiled_programs_end_with_halt_and_decode() {
    let srcs = [
        "let x = 1;",
        "print 1 + 2 * 3;",
        "let x = 0; while x < 2 ( x = x + 1; )",
        "if 1 ( print 1; ) else ( print 2; )",
    ];
    for src in srcs {
        let mut parser = Parser::new(src);
        let program = parser.parse_program().unwrap();
        let mut compiler = Compiler::new();
        let bytecode = compiler.compile(program);
        assert_eq!(*bytecode.last().unwrap(), 0xFF);
        // walk the buffer opcode by opcode; every jump target must be
        // one of the visited boundaries
        let mut boundaries = Vec::new();
        let mut pc = 0usize;
        while pc < bytecode.len() {
            boundaries.push(pc);
            let op = Opcode::try_from(bytecode[pc]).expect("undecodable byte");
            pc += 1;
            if matches!(op, Opcode::Push) {
                pc += 8;
            }
        }
        assert_eq!(pc, bytecode.len());
        // recover the pushed jump targets: each jump/jump-if is
        // preceded by a push of its absolute target
        for (i, &b) in bytecode.iter().enumerate() {
            if boundaries.contains(&i)
                && (b == Opcode::Jump.as_byte() || b == Opcode::JumpIf.as_byte())
            {
                let operand = i64::from_le_bytes(bytecode[i - 8..i].try_into().unwrap());
                assert!(boundaries.contains(&(operand as usize)));
            }
        }
    }
}

#[test]
fn undeclared_variable_reads_zero() {
    // intentional leniency: first reference allocates the address
    let vm = run_source("print y; let x = y + 1; print x;", 64);
    assert_eq!(vm.get_output(), &[0, 1]);
}

#[test]
fn nested_blocks_and_parentheses() {
    let vm = run_source(
        "let x = 0; while x < 2 ( let y = 0; while y < 2 ( print x * 10 + y; y = y + 1; ) x = x + 1; )",
        64,
    );
    assert_eq!(vm.get_output(), &[0, 1, 10, 11]);
    let vm = run_source("print (1 + 2) * 3;", 64);
    assert_eq!(vm.get_output(), &[9]);
}
