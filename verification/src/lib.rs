//! A small Brainfuck toolchain: a lexer over source text, a single-pass
//! compiler that folds runs of repeated instructions and resolves the jump
//! targets of matching brackets, and a virtual machine that executes the
//! compiled form on a fixed-size tape of byte cells.
//!
//! The compiler's contract pins its output to a functional model of the
//! pass ([`bfc::spec_compile_source`]), and the machine's contract pins a
//! run to a step-indexed model of execution ([`bfvm::vm_run`]).  On top of
//! those models, [`props`] proves the structural laws of the pipeline:
//! comment-only programs compile to the lone `End` sentinel, jumps in
//! compiled code pair up and stay in bounds, folded runs act like their
//! unfolded forms, and — for programs without loops — running the
//! compiled form is observably identical to interpreting the source one
//! token at a time.

use vstd::prelude::*;
use crate::bfc::spec_compile_source;
use crate::bfvm::ExecStatus;
use crate::bfvm::VirtualMachine;
use crate::bfvm::initial_state;
use crate::bfvm::vm_run;
use crate::error::BFVMError;

pub mod bfc;
pub mod bfvm;
pub mod error;
pub mod lexer;
pub mod props;

verus! {

/// Compiles `source` and executes the compiled program with `input` as its
/// input stream, for at most `max_steps` instructions.  On a normal halt
/// the program's output bytes are returned; otherwise the first
/// compilation or runtime error is, with `StepLimitReached` standing for a
/// program that was still running when the step budget ran out.
pub fn run(source: &str, input: Vec<u8>, max_steps: u64) -> (r: Result<Vec<u8>, BFVMError>)
    requires
        source@.len() + 2 <= usize::MAX,
    ensures
        match spec_compile_source(source@) {
            Ok(c) => match vm_run(c, input@, initial_state(), max_steps as nat) {
                ExecStatus::Running(m) => r == Err::<Vec<u8>, BFVMError>(
                    BFVMError::StepLimitReached,
                ),
                ExecStatus::Halted(m) => r matches Ok(out) && out@ == m.output,
                ExecStatus::Failed(e, m) => r == Err::<Vec<u8>, BFVMError>(e),
            },
            Err(e) => r == Err::<Vec<u8>, BFVMError>(e),
        },
{
    let mut vm = match VirtualMachine::init(source, input) {
        Ok(vm) => vm,
        Err(e) => {
            return Err(e);
        },
    };
    match vm.run(max_steps) {
        Ok(_) => {},
        Err(e) => {
            return Err(e);
        },
    }
    Ok(vm.into_output())
}

} // verus!
