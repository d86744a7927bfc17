use bfvm::bfc::Compiler;
use bfvm::bfc::OpCode;
use bfvm::bfvm::DATA_SIZE;
use bfvm::bfvm::VirtualMachine;
use bfvm::error::BFVMError;
use bfvm::run;

const BUDGET: u64 = 10_000_000;

#[test]
fn scenario_three_pluses_write_emits_byte_three() {
    let output = run("+++.", vec![], BUDGET).expect("program must halt");
    assert_eq!(output, vec![3u8]);
}

#[test]
fn scenario_clear_loop_zeroes_a_cell_holding_five() {
    let mut compiler = Compiler::new("[-]");
    let code = compiler.compile().expect("program must compile");
    assert_eq!(
        code,
        vec![OpCode::Jz(3), OpCode::SubB(1), OpCode::Jmp(0), OpCode::End]
    );
    let mut vm = VirtualMachine::from_asm(code, vec![]);
    vm.set_cell(0, 5);
    assert_eq!(vm.cell(0), 5);
    assert_eq!(vm.run(BUDGET), Ok(()));
    assert_eq!(vm.cell(0), 0);
}

#[test]
fn scenario_moving_full_tape_length_is_out_of_range() {
    let source = ">".repeat(DATA_SIZE);
    assert_eq!(
        run(&source, vec![], BUDGET),
        Err(BFVMError::DataPointerOutOfRange)
    );
}

#[test]
fn moving_to_the_last_cell_stays_in_range() {
    let source = ">".repeat(DATA_SIZE - 1);
    assert_eq!(run(&source, vec![], BUDGET), Ok(vec![]));
}

#[test]
fn one_step_past_the_last_cell_is_out_of_range() {
    let mut source = ">".repeat(DATA_SIZE - 1);
    source.push('.');
    source.push('>');
    assert_eq!(
        run(&source, vec![], BUDGET),
        Err(BFVMError::DataPointerOutOfRange)
    );
}

#[test]
fn moving_left_of_the_first_cell_is_out_of_range() {
    assert_eq!(
        run("<", vec![], BUDGET),
        Err(BFVMError::DataPointerOutOfRange)
    );
}

#[test]
fn subtraction_wraps_below_zero() {
    let output = run("-.", vec![], BUDGET).expect("program must halt");
    assert_eq!(output, vec![255u8]);
}

#[test]
fn addition_wraps_above_255() {
    let mut source = "+".repeat(300);
    source.push('.');
    let output = run(&source, vec![], BUDGET).expect("program must halt");
    assert_eq!(output, vec![44u8]);
}

#[test]
fn read_stores_one_input_byte() {
    let output = run(",.", vec![65], BUDGET).expect("program must halt");
    assert_eq!(output, vec![65u8]);
}

#[test]
fn read_at_end_of_input_fails() {
    assert_eq!(run(",", vec![], BUDGET), Err(BFVMError::FailedToReadByte));
}

#[test]
fn echo_until_zero_byte() {
    let output = run(",[.,]", vec![104, 105, 0], BUDGET).expect("program must halt");
    assert_eq!(output, vec![104, 105]);
}

#[test]
fn infinite_loop_exhausts_the_step_budget() {
    assert_eq!(
        run("+[]", vec![], 100_000),
        Err(BFVMError::StepLimitReached)
    );
}

#[test]
fn compile_error_surfaces_through_run() {
    assert!(matches!(
        run("]", vec![], BUDGET),
        Err(BFVMError::UnexpectedToken(_, _))
    ));
}

#[test]
fn loop_body_skipped_when_cell_starts_at_zero() {
    let output = run("[.]+.", vec![], BUDGET).expect("program must halt");
    assert_eq!(output, vec![1u8]);
}

#[test]
fn cell_to_cell_transfer() {
    // Move the value 4 from cell 0 to cell 1, then print cell 1.
    let output = run("++++[->+<]>.", vec![], BUDGET).expect("program must halt");
    assert_eq!(output, vec![4u8]);
}

#[test]
fn folded_and_unfolded_programs_agree() {
    // The same program written densely and spread out between comments
    // compiles to different foldings but must produce identical output.
    let dense = run(",++++.>++.", vec![7], BUDGET).expect("program must halt");
    let sparse = run(", + one + two + three + four . > + and + again .", vec![7], BUDGET)
        .expect("program must halt");
    assert_eq!(dense, sparse);
    assert_eq!(dense, vec![11, 2]);
}

#[test]
fn hello_world_program() {
    let source = "++++++++[>++++[>++>+++>+++>+<<<<-]>+>+>->>+[<]<-]>>.>---.+++++++..+++.>>.<-.<.+++.------.--------.>>+.>++.";
    let output = run(source, vec![], BUDGET).expect("program must halt");
    assert_eq!(output, b"Hello World!\n".to_vec());
}

#[test]
fn init_builds_a_machine_from_source() {
    let mut vm = VirtualMachine::init("+++.", vec![]).expect("source must compile");
    assert_eq!(vm.data_pointer(), 0);
    assert_eq!(vm.run(BUDGET), Ok(()));
    assert_eq!(vm.output().clone(), vec![3u8]);
    assert_eq!(vm.into_output(), vec![3u8]);
}

#[test]
fn init_surfaces_compile_errors() {
    match VirtualMachine::init("[", vec![]) {
        Err(BFVMError::LoopNotClosed(pos)) => {
            assert_eq!(pos.line, 1);
        }
        _ => panic!("expected a loop-not-closed error"),
    }
}

#[test]
fn zero_step_budget_runs_nothing() {
    assert_eq!(run("", vec![], 0), Err(BFVMError::StepLimitReached));
    assert_eq!(run("", vec![], 1), Ok(vec![]));
}
