use bfvm::bfc::Compiler;
use bfvm::bfc::OpCode;
use bfvm::error::BFVMError;

#[test]
fn empty_source_compiles_to_end_only() {
    let mut compiler = Compiler::new("");
    assert_eq!(compiler.compile(), Ok(vec![OpCode::End]));
}

#[test]
fn comment_only_source_compiles_to_end_only() {
    let mut compiler = Compiler::new("this whole file\nis a comment\t{} 123");
    assert_eq!(compiler.compile(), Ok(vec![OpCode::End]));
}

#[test]
fn scenario_three_pluses_and_write() {
    let mut compiler = Compiler::from_source("+++.");
    assert_eq!(
        compiler.compile(),
        Ok(vec![OpCode::AddB(3), OpCode::Write, OpCode::End])
    );
}

#[test]
fn scenario_clear_loop() {
    let mut compiler = Compiler::new("[-]");
    assert_eq!(
        compiler.compile(),
        Ok(vec![
            OpCode::Jz(3),
            OpCode::SubB(1),
            OpCode::Jmp(0),
            OpCode::End
        ])
    );
}

#[test]
fn scenario_lone_closing_bracket_fails_at_line_one() {
    let mut compiler = Compiler::new("]");
    match compiler.compile() {
        Err(BFVMError::UnexpectedToken(pos, tok)) => {
            assert_eq!(pos.line, 1);
            assert_eq!(pos.column, 1);
            assert_eq!(tok, bfvm::lexer::Token::BracketRight);
        }
        other => panic!("expected an unexpected-token error, got {:?}", other),
    }
}

#[test]
fn scenario_lone_open_bracket_fails_at_line_one() {
    let mut compiler = Compiler::new("[");
    match compiler.compile() {
        Err(BFVMError::LoopNotClosed(pos)) => {
            assert_eq!(pos.line, 1);
            assert_eq!(pos.column, 1);
        }
        other => panic!("expected a loop-not-closed error, got {:?}", other),
    }
}

#[test]
fn unclosed_loop_reports_innermost_open_bracket() {
    let mut compiler = Compiler::new("[+\n[-");
    match compiler.compile() {
        Err(BFVMError::LoopNotClosed(pos)) => {
            // The newline counts as column 1 of line 2, so the inner `[`
            // sits at column 2.
            assert_eq!(pos.line, 2);
            assert_eq!(pos.column, 2);
        }
        other => panic!("expected a loop-not-closed error, got {:?}", other),
    }
}

#[test]
fn closing_bracket_after_balanced_loop_fails() {
    let mut compiler = Compiler::new("[]]");
    match compiler.compile() {
        Err(BFVMError::UnexpectedToken(pos, tok)) => {
            assert_eq!(pos.line, 1);
            assert_eq!(pos.column, 3);
            assert_eq!(tok, bfvm::lexer::Token::BracketRight);
        }
        other => panic!("expected an unexpected-token error, got {:?}", other),
    }
}

#[test]
fn runs_fold_into_single_instructions() {
    let mut compiler = Compiler::new("++-->><<");
    assert_eq!(
        compiler.compile(),
        Ok(vec![
            OpCode::AddB(2),
            OpCode::SubB(2),
            OpCode::AddP(2),
            OpCode::SubP(2),
            OpCode::End
        ])
    );
}

#[test]
fn plus_run_longer_than_a_byte_wraps_modulo_256() {
    let source = "+".repeat(300);
    let mut compiler = Compiler::new(&source);
    assert_eq!(compiler.compile(), Ok(vec![OpCode::AddB(44), OpCode::End]));
}

#[test]
fn plus_run_of_exactly_256_wraps_to_zero() {
    let source = "+".repeat(256);
    let mut compiler = Compiler::new(&source);
    assert_eq!(compiler.compile(), Ok(vec![OpCode::AddB(0), OpCode::End]));
}

#[test]
fn nested_loops_resolve_innermost_first() {
    let mut compiler = Compiler::new("[[]]");
    assert_eq!(
        compiler.compile(),
        Ok(vec![
            OpCode::Jz(4),
            OpCode::Jz(3),
            OpCode::Jmp(1),
            OpCode::Jmp(0),
            OpCode::End
        ])
    );
}

#[test]
fn loop_followed_by_more_code() {
    let mut compiler = Compiler::new("[+].");
    assert_eq!(
        compiler.compile(),
        Ok(vec![
            OpCode::Jz(3),
            OpCode::AddB(1),
            OpCode::Jmp(0),
            OpCode::Write,
            OpCode::End
        ])
    );
}

#[test]
fn jump_counts_match_on_balanced_programs() {
    let mut compiler = Compiler::new("[[->+<]>[.<]]");
    let code = compiler.compile().expect("balanced program must compile");
    let jz = code
        .iter()
        .filter(|op| matches!(op, OpCode::Jz(_)))
        .count();
    let jmp = code
        .iter()
        .filter(|op| matches!(op, OpCode::Jmp(_)))
        .count();
    assert_eq!(jz, jmp);
    for (i, op) in code.iter().enumerate() {
        if let OpCode::Jz(t) = op {
            assert!(*t > i + 1);
            assert_eq!(code[*t - 1], OpCode::Jmp(i));
        }
    }
}

#[test]
fn compiling_twice_leaves_nothing_to_compile() {
    let mut compiler = Compiler::new("+++");
    assert_eq!(compiler.compile(), Ok(vec![OpCode::AddB(3), OpCode::End]));
    assert_eq!(compiler.compile(), Ok(vec![OpCode::End]));
}
