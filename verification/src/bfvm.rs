//! The Brainfuck virtual machine: a register-free interpreter that owns
//! the compiled instruction sequence, a fixed-size tape of byte cells, a
//! data pointer and an instruction pointer, and executes instructions until
//! the `End` sentinel, a runtime error, or the caller's step budget stops
//! it.
//!
//! Program input and output are byte sequences held as plain values: `Read`
//! consumes the next input byte into the current cell (exhausted input is a
//! runtime error), `Write` appends the current cell to the output.

use vstd::prelude::*;
use crate::bfc::Compiler;
use crate::bfc::OpCode;
use crate::bfc::spec_compile_source;
use crate::error::BFVMError;

verus! {

/// The size of the data array defined by the common Brainfuck standard.
pub const DATA_SIZE: usize = 30000;

/// The mathematical state of a running machine: the tape, the data
/// pointer, the instruction pointer, how much of the input has been
/// consumed, and the output produced so far.
pub ghost struct MachineState {
    /// The tape of byte cells.
    pub tape: Seq<u8>,
    /// The data pointer, an index into the tape.
    pub dp: usize,
    /// The instruction pointer, an index into the instruction sequence.
    pub ip: nat,
    /// How many input bytes have been consumed.
    pub inpos: nat,
    /// The bytes written so far.
    pub output: Seq<u8>,
}

/// The outcome of running a machine for some number of steps: still
/// running, halted at the `End` sentinel, or stopped by a runtime error.
pub ghost enum ExecStatus {
    Running(MachineState),
    Halted(MachineState),
    Failed(BFVMError, MachineState),
}

/// Byte-cell addition: modulo-256 wraparound, the defined Brainfuck
/// semantics, never an overflow error.
pub open spec fn byte_add(b: u8, k: u8) -> u8 {
    ((b + k) % 256) as u8
}

/// Byte-cell subtraction: modulo-256 wraparound.
pub open spec fn byte_sub(b: u8, k: u8) -> u8 {
    ((b - k) % 256) as u8
}

/// Byte-cell addition agrees with the machine's wrapping addition.
pub proof fn lemma_byte_add_wrapping(b: u8, k: u8)
    ensures
        byte_add(b, k) == vstd::wrapping::u8_specs::wrapping_add(b, k),
{
    if b + k > u8::MAX {
        vstd::arithmetic::div_mod::lemma_mod_add_multiples_vanish(b + k - 256, 256);
        vstd::arithmetic::div_mod::lemma_small_mod((b + k - 256) as nat, 256);
    } else {
        vstd::arithmetic::div_mod::lemma_small_mod((b + k) as nat, 256);
    }
}

/// Byte-cell subtraction agrees with the machine's wrapping subtraction.
pub proof fn lemma_byte_sub_wrapping(b: u8, k: u8)
    ensures
        byte_sub(b, k) == vstd::wrapping::u8_specs::wrapping_sub(b, k),
{
    if b - k < 0 {
        vstd::arithmetic::div_mod::lemma_mod_add_multiples_vanish(b - k, 256);
        vstd::arithmetic::div_mod::lemma_small_mod((b - k + 256) as nat, 256);
    } else {
        vstd::arithmetic::div_mod::lemma_small_mod((b - k) as nat, 256);
    }
}

/// An instruction sequence the machine can run without leaving its code:
/// it is non-empty, ends with the `End` sentinel, and every jump target
/// lies inside the sequence.
pub open spec fn valid_code(code: Seq<OpCode>) -> bool {
    &&& code.len() >= 1
    &&& code[code.len() - 1] == OpCode::End
    &&& forall|i: int|
        0 <= i < code.len() ==> {
            &&& (#[trigger] code[i] matches OpCode::Jz(t) ==> t < code.len())
            &&& (code[i] matches OpCode::Jmp(t) ==> t < code.len())
        }
}

/// The machine state before the first instruction: an all-zero tape, both
/// pointers at zero, no input consumed, no output produced.
pub open spec fn initial_state() -> MachineState {
    MachineState {
        tape: Seq::new(DATA_SIZE as nat, |i: int| 0u8),
        dp: 0,
        ip: 0,
        inpos: 0,
        output: Seq::empty(),
    }
}

/// One step of the machine over the instruction sequence `code` and the
/// program input `input`.
///
/// * `AddB`/`SubB` change the current cell modulo 256 and move on.
/// * `AddP`/`SubP` move the data pointer with the machine's wrapping
///   arithmetic, then bounds-check the result against the tape size; an
///   out-of-range result is a fatal `DataPointerOutOfRange`.
/// * `Write` appends the current cell to the output; `Read` consumes the
///   next input byte into the current cell, and fails with
///   `FailedToReadByte` when the input is exhausted.
/// * `Jz` moves to its target when the current cell is zero; `Jmp` always
///   moves to its target.
/// * `End` halts the machine.
pub open spec fn vm_step(code: Seq<OpCode>, input: Seq<u8>, m: MachineState) -> ExecStatus {
    if m.ip >= code.len() {
        ExecStatus::Halted(m)
    } else {
        match code[m.ip as int] {
            OpCode::AddB(k) => ExecStatus::Running(
                MachineState {
                    tape: m.tape.update(m.dp as int, byte_add(m.tape[m.dp as int], k)),
                    ip: m.ip + 1,
                    ..m
                },
            ),
            OpCode::SubB(k) => ExecStatus::Running(
                MachineState {
                    tape: m.tape.update(m.dp as int, byte_sub(m.tape[m.dp as int], k)),
                    ip: m.ip + 1,
                    ..m
                },
            ),
            OpCode::AddP(off) => {
                let nd = vstd::wrapping::usize_specs::wrapping_add(m.dp, off);
                if nd < DATA_SIZE {
                    ExecStatus::Running(MachineState { dp: nd, ip: m.ip + 1, ..m })
                } else {
                    ExecStatus::Failed(
                        BFVMError::DataPointerOutOfRange,
                        MachineState { dp: nd, ..m },
                    )
                }
            },
            OpCode::SubP(off) => {
                let nd = vstd::wrapping::usize_specs::wrapping_sub(m.dp, off);
                if nd < DATA_SIZE {
                    ExecStatus::Running(MachineState { dp: nd, ip: m.ip + 1, ..m })
                } else {
                    ExecStatus::Failed(
                        BFVMError::DataPointerOutOfRange,
                        MachineState { dp: nd, ..m },
                    )
                }
            },
            OpCode::Write => ExecStatus::Running(
                MachineState { output: m.output.push(m.tape[m.dp as int]), ip: m.ip + 1, ..m },
            ),
            OpCode::Read => {
                if m.inpos < input.len() {
                    ExecStatus::Running(
                        MachineState {
                            tape: m.tape.update(m.dp as int, input[m.inpos as int]),
                            inpos: m.inpos + 1,
                            ip: m.ip + 1,
                            ..m
                        },
                    )
                } else {
                    ExecStatus::Failed(BFVMError::FailedToReadByte, m)
                }
            },
            OpCode::Jz(t) => {
                if m.tape[m.dp as int] != 0 {
                    ExecStatus::Running(MachineState { ip: m.ip + 1, ..m })
                } else {
                    ExecStatus::Running(MachineState { ip: t as nat, ..m })
                }
            },
            OpCode::Jmp(t) => ExecStatus::Running(MachineState { ip: t as nat, ..m }),
            OpCode::End => ExecStatus::Halted(m),
        }
    }
}

/// Running the machine for at most `fuel` steps: once it halts or fails,
/// the outcome is final; with the fuel exhausted it is still running.
pub open spec fn vm_run(code: Seq<OpCode>, input: Seq<u8>, m: MachineState, fuel: nat) -> ExecStatus
    decreases fuel,
{
    if fuel == 0 {
        ExecStatus::Running(m)
    } else {
        match vm_step(code, input, m) {
            ExecStatus::Running(m2) => vm_run(code, input, m2, (fuel - 1) as nat),
            ExecStatus::Halted(m2) => ExecStatus::Halted(m2),
            ExecStatus::Failed(e, m2) => ExecStatus::Failed(e, m2),
        }
    }
}

/// Running for `k + j` steps is running for `k` steps and then, if still
/// running, for `j` more.
pub proof fn lemma_vm_run_add(code: Seq<OpCode>, input: Seq<u8>, m: MachineState, k: nat, j: nat)
    ensures
        vm_run(code, input, m, k + j) == (match vm_run(code, input, m, k) {
            ExecStatus::Running(m2) => vm_run(code, input, m2, j),
            ExecStatus::Halted(m2) => ExecStatus::Halted(m2),
            ExecStatus::Failed(e, m2) => ExecStatus::Failed(e, m2),
        }),
    decreases k,
{
    if k > 0 {
        match vm_step(code, input, m) {
            ExecStatus::Running(m2) => {
                lemma_vm_run_add(code, input, m2, (k - 1) as nat, j);
            },
            ExecStatus::Halted(m2) => {},
            ExecStatus::Failed(e, m2) => {},
        }
    }
}

/// Boundary behaviour of a forward pointer move: a move that keeps the
/// data pointer within `[0, DATA_SIZE - 1]` never errors, and one whose
/// result lands at `DATA_SIZE` or beyond — in particular one step forward
/// from `DATA_SIZE - 1` — raises `DataPointerOutOfRange`.
pub proof fn lemma_add_ptr_bounds(code: Seq<OpCode>, input: Seq<u8>, m: MachineState, off: usize)
    requires
        m.ip < code.len(),
        code[m.ip as int] == OpCode::AddP(off),
        m.dp + off <= usize::MAX,
    ensures
        m.dp + off < DATA_SIZE ==> vm_step(code, input, m) == ExecStatus::Running(
            MachineState { dp: (m.dp + off) as usize, ip: m.ip + 1, ..m },
        ),
        m.dp + off >= DATA_SIZE ==> vm_step(code, input, m) == ExecStatus::Failed(
            BFVMError::DataPointerOutOfRange,
            MachineState { dp: (m.dp + off) as usize, ..m },
        ),
{
}

/// One step forward from the last tape cell is out of range.
pub proof fn lemma_step_past_tape_end(code: Seq<OpCode>, input: Seq<u8>, m: MachineState)
    requires
        m.ip < code.len(),
        code[m.ip as int] == OpCode::AddP(1),
        m.dp == DATA_SIZE - 1,
    ensures
        vm_step(code, input, m) == ExecStatus::Failed(
            BFVMError::DataPointerOutOfRange,
            MachineState { dp: DATA_SIZE, ..m },
        ),
{
    lemma_add_ptr_bounds(code, input, m, 1);
}

/// Boundary behaviour of a backward pointer move: a move that stays at or
/// above cell zero never errors, and a move below zero wraps around the
/// machine word and is caught by the bounds check as long as the offset
/// does not overshoot the data pointer by nearly the whole address space.
pub proof fn lemma_sub_ptr_bounds(code: Seq<OpCode>, input: Seq<u8>, m: MachineState, off: usize)
    requires
        m.ip < code.len(),
        code[m.ip as int] == OpCode::SubP(off),
        m.dp < DATA_SIZE,
    ensures
        off <= m.dp ==> vm_step(code, input, m) == ExecStatus::Running(
            MachineState { dp: (m.dp - off) as usize, ip: m.ip + 1, ..m },
        ),
        m.dp < off && off - m.dp <= usize::MAX + 1 - DATA_SIZE ==> (vm_step(code, input, m)
            matches ExecStatus::Failed(e, _) && e == BFVMError::DataPointerOutOfRange),
{
}

/// The virtual machine: the compiled instructions, the tape with its data
/// pointer, the instruction pointer, the program input with a cursor, and
/// the output gathered so far.
pub struct VirtualMachine {
    /// The tape of byte cells, all zero at construction.
    pub data: Vec<u8>,
    /// The data pointer, an index into `data`.
    pub data_ptr: usize,
    /// The compiled instructions being interpreted.
    pub instructions: Vec<OpCode>,
    /// The instruction pointer, an index into `instructions`.
    pub instr_ptr: usize,
    /// The program input.
    pub input: Vec<u8>,
    /// How many bytes of `input` have been consumed.
    pub input_pos: usize,
    /// The bytes the program has written.
    pub output: Vec<u8>,
}

impl VirtualMachine {
    /// The machine is in a runnable state: the tape has its fixed size,
    /// both pointers are in range, the instruction sequence is valid, and
    /// the input cursor has not run past the input.
    pub open spec fn inv(self) -> bool {
        &&& self.data@.len() == DATA_SIZE
        &&& self.instructions@.len() <= usize::MAX
        &&& self.data_ptr < DATA_SIZE
        &&& valid_code(self.instructions@)
        &&& self.instr_ptr < self.instructions@.len()
        &&& self.input_pos <= self.input@.len()
    }

    /// The mathematical state of this machine.
    pub open spec fn state_of(self) -> MachineState {
        MachineState {
            tape: self.data@,
            dp: self.data_ptr,
            ip: self.instr_ptr as nat,
            inpos: self.input_pos as nat,
            output: self.output@,
        }
    }

    /// Creates a machine over compiled instructions and program input,
    /// with an all-zero tape and both pointers at the start.
    pub fn from_asm(code: Vec<OpCode>, input: Vec<u8>) -> (vm: VirtualMachine)
        requires
            valid_code(code@),
        ensures
            vm.inv(),
            vm.instructions@ == code@,
            vm.input@ == input@,
            vm.state_of() == initial_state(),
    {
        let mut data: Vec<u8> = Vec::new();
        while data.len() < DATA_SIZE
            invariant
                data@.len() <= DATA_SIZE,
                forall|i: int| 0 <= i < data@.len() ==> data@[i] == 0u8,
            decreases DATA_SIZE - data@.len(),
        {
            data.push(0);
        }
        proof {
            assert(data@ =~= Seq::new(DATA_SIZE as nat, |i: int| 0u8));
            assert(code@.len() == vstd::std_specs::vec::spec_vec_len(&code));
        }
        VirtualMachine {
            data,
            data_ptr: 0,
            instructions: code,
            instr_ptr: 0,
            input,
            input_pos: 0,
            output: Vec::new(),
        }
    }

    /// Compiles the given source text and returns a machine ready to run
    /// it on the given input, or the first compilation error.
    pub fn init(source: &str, input: Vec<u8>) -> (r: Result<VirtualMachine, BFVMError>)
        requires
            source@.len() + 2 <= usize::MAX,
        ensures
            match r {
                Ok(vm) => {
                    &&& spec_compile_source(source@) == Ok::<Seq<OpCode>, BFVMError>(
                        vm.instructions@,
                    )
                    &&& vm.inv()
                    &&& vm.input@ == input@
                    &&& vm.state_of() == initial_state()
                },
                Err(e) => spec_compile_source(source@) == Err::<Seq<OpCode>, BFVMError>(e),
            },
    {
        let mut compiler = Compiler::from_source(source);
        let code = match compiler.compile() {
            Ok(c) => c,
            Err(e) => {
                return Err(e);
            },
        };
        proof {
            crate::props::lemma_compile_source_wf(source@, code@);
            crate::props::lemma_code_wf_valid(code@);
        }
        Ok(VirtualMachine::from_asm(code, input))
    }

    /// Adds `operand` to the cell under the data pointer, modulo 256.
    fn add_byte(&mut self, operand: u8)
        requires
            old(self).inv(),
            old(self).instructions@[old(self).instr_ptr as int] == OpCode::AddB(operand),
        ensures
            final(self).inv(),
            final(self).instructions@ == old(self).instructions@,
            final(self).input@ == old(self).input@,
            vm_step(old(self).instructions@, old(self).input@, old(self).state_of())
                == ExecStatus::Running(final(self).state_of()),
    {
        let b: u8 = self.data[self.data_ptr];
        proof {
            lemma_byte_add_wrapping(b, operand);
        }
        self.data.set(self.data_ptr, b.wrapping_add(operand));
        self.instr_ptr = self.instr_ptr + 1;
    }

    /// Subtracts `operand` from the cell under the data pointer, modulo
    /// 256.
    fn sub_byte(&mut self, operand: u8)
        requires
            old(self).inv(),
            old(self).instructions@[old(self).instr_ptr as int] == OpCode::SubB(operand),
        ensures
            final(self).inv(),
            final(self).instructions@ == old(self).instructions@,
            final(self).input@ == old(self).input@,
            vm_step(old(self).instructions@, old(self).input@, old(self).state_of())
                == ExecStatus::Running(final(self).state_of()),
    {
        let b: u8 = self.data[self.data_ptr];
        proof {
            lemma_byte_sub_wrapping(b, operand);
        }
        self.data.set(self.data_ptr, b.wrapping_sub(operand));
        self.instr_ptr = self.instr_ptr + 1;
    }

    /// Moves the data pointer `offset` cells forward.  The move itself
    /// wraps rather than panics; a result outside the tape is a fatal
    /// `DataPointerOutOfRange`.
    fn add_ptr(&mut self, offset: usize) -> (r: Result<(), BFVMError>)
        requires
            old(self).inv(),
            old(self).instructions@[old(self).instr_ptr as int] == OpCode::AddP(offset),
        ensures
            final(self).instructions@ == old(self).instructions@,
            final(self).input@ == old(self).input@,
            match r {
                Ok(_) => final(self).inv() && vm_step(
                    old(self).instructions@,
                    old(self).input@,
                    old(self).state_of(),
                ) == ExecStatus::Running(final(self).state_of()),
                Err(e) => vm_step(old(self).instructions@, old(self).input@, old(self).state_of())
                    == ExecStatus::Failed(e, final(self).state_of()),
            },
    {
        self.data_ptr = self.data_ptr.wrapping_add(offset);
        if self.data_ptr >= DATA_SIZE {
            return Err(BFVMError::DataPointerOutOfRange);
        }
        self.instr_ptr = self.instr_ptr + 1;
        Ok(())
    }

    /// Moves the data pointer `offset` cells backward.  The move itself
    /// wraps rather than panics; a result outside the tape is a fatal
    /// `DataPointerOutOfRange`.
    fn sub_ptr(&mut self, offset: usize) -> (r: Result<(), BFVMError>)
        requires
            old(self).inv(),
            old(self).instructions@[old(self).instr_ptr as int] == OpCode::SubP(offset),
        ensures
            final(self).instructions@ == old(self).instructions@,
            final(self).input@ == old(self).input@,
            match r {
                Ok(_) => final(self).inv() && vm_step(
                    old(self).instructions@,
                    old(self).input@,
                    old(self).state_of(),
                ) == ExecStatus::Running(final(self).state_of()),
                Err(e) => vm_step(old(self).instructions@, old(self).input@, old(self).state_of())
                    == ExecStatus::Failed(e, final(self).state_of()),
            },
    {
        self.data_ptr = self.data_ptr.wrapping_sub(offset);
        if self.data_ptr >= DATA_SIZE {
            return Err(BFVMError::DataPointerOutOfRange);
        }
        self.instr_ptr = self.instr_ptr + 1;
        Ok(())
    }

    /// Appends the cell under the data pointer to the program output.
    fn write(&mut self)
        requires
            old(self).inv(),
            old(self).instructions@[old(self).instr_ptr as int] == OpCode::Write,
        ensures
            final(self).inv(),
            final(self).instructions@ == old(self).instructions@,
            final(self).input@ == old(self).input@,
            vm_step(old(self).instructions@, old(self).input@, old(self).state_of())
                == ExecStatus::Running(final(self).state_of()),
    {
        let b: u8 = self.data[self.data_ptr];
        self.output.push(b);
        self.instr_ptr = self.instr_ptr + 1;
    }

    /// Consumes the next input byte into the cell under the data pointer.
    /// Exhausted input is a fatal `FailedToReadByte`; the cell is only
    /// written when a byte was available.
    fn read(&mut self) -> (r: Result<(), BFVMError>)
        requires
            old(self).inv(),
            old(self).instructions@[old(self).instr_ptr as int] == OpCode::Read,
        ensures
            final(self).instructions@ == old(self).instructions@,
            final(self).input@ == old(self).input@,
            match r {
                Ok(_) => final(self).inv() && vm_step(
                    old(self).instructions@,
                    old(self).input@,
                    old(self).state_of(),
                ) == ExecStatus::Running(final(self).state_of()),
                Err(e) => vm_step(old(self).instructions@, old(self).input@, old(self).state_of())
                    == ExecStatus::Failed(e, final(self).state_of()),
            },
    {
        if self.input_pos >= self.input.len() {
            return Err(BFVMError::FailedToReadByte);
        }
        let b: u8 = self.input[self.input_pos];
        self.data.set(self.data_ptr, b);
        self.input_pos = self.input_pos + 1;
        self.instr_ptr = self.instr_ptr + 1;
        Ok(())
    }

    /// Jumps to the instruction at `line` when the cell under the data
    /// pointer is zero; otherwise falls through to the next instruction.
    fn jmp_zero(&mut self, line: usize)
        requires
            old(self).inv(),
            old(self).instructions@[old(self).instr_ptr as int] == OpCode::Jz(line),
        ensures
            final(self).inv(),
            final(self).instructions@ == old(self).instructions@,
            final(self).input@ == old(self).input@,
            vm_step(old(self).instructions@, old(self).input@, old(self).state_of())
                == ExecStatus::Running(final(self).state_of()),
    {
        if self.data[self.data_ptr] != 0x00 {
            self.instr_ptr = self.instr_ptr + 1;
        } else {
            self.instr_ptr = line;
        }
    }

    /// Jumps to the instruction at `line`.
    fn jmp(&mut self, line: usize)
        requires
            old(self).inv(),
            old(self).instructions@[old(self).instr_ptr as int] == OpCode::Jmp(line),
        ensures
            final(self).inv(),
            final(self).instructions@ == old(self).instructions@,
            final(self).input@ == old(self).input@,
            vm_step(old(self).instructions@, old(self).input@, old(self).state_of())
                == ExecStatus::Running(final(self).state_of()),
    {
        self.instr_ptr = line;
    }

    /// Executes instructions from the current state until the `End`
    /// sentinel halts the program, a runtime error stops it, or
    /// `max_steps` instructions have been executed.  The result mirrors
    /// running the machine model for `max_steps` steps: `Ok` for a halt,
    /// the runtime error for a failure, and `StepLimitReached` when the
    /// budget ran out first.
    #[verifier::rlimit(100)]
    #[verifier::spinoff_prover]
    pub fn run(&mut self, max_steps: u64) -> (r: Result<(), BFVMError>)
        requires
            old(self).inv(),
        ensures
            final(self).instructions@ == old(self).instructions@,
            final(self).input@ == old(self).input@,
            match vm_run(
                old(self).instructions@,
                old(self).input@,
                old(self).state_of(),
                max_steps as nat,
            ) {
                ExecStatus::Running(m) => r == Err::<(), BFVMError>(BFVMError::StepLimitReached)
                    && final(self).state_of() == m && final(self).inv(),
                ExecStatus::Halted(m) => r == Ok::<(), BFVMError>(()) && final(self).state_of()
                    == m && final(self).inv(),
                ExecStatus::Failed(e, m) => r == Err::<(), BFVMError>(e) && final(self).state_of()
                    == m,
            },
    {
        let ghost code0: Seq<OpCode> = self.instructions@;
        let ghost input0: Seq<u8> = self.input@;
        let ghost m0: MachineState = self.state_of();
        let mut remaining: u64 = max_steps;
        while remaining > 0 && self.instructions[self.instr_ptr] != OpCode::End
            invariant
                self.inv(),
                code0 == old(self).instructions@,
                input0 == old(self).input@,
                m0 == old(self).state_of(),
                self.instructions@ == code0,
                self.input@ == input0,
                remaining <= max_steps,
                vm_run(code0, input0, m0, (max_steps - remaining) as nat) == ExecStatus::Running(
                    self.state_of(),
                ),
            decreases remaining,
        {
            let ghost pre: MachineState = self.state_of();
            let ghost used: nat = (max_steps - remaining) as nat;
            let op: OpCode = self.instructions[self.instr_ptr];
            match op {
                OpCode::AddB(operand) => self.add_byte(operand),
                OpCode::SubB(operand) => self.sub_byte(operand),
                OpCode::AddP(offset) => {
                    let res = self.add_ptr(offset);
                    if let Err(e) = res {
                        proof {
                            assert(vm_step(code0, input0, pre) == ExecStatus::Failed(
                                e,
                                self.state_of(),
                            ));
                            lemma_vm_run_add(code0, input0, m0, used, (max_steps - used) as nat);
                            assert(vm_run(code0, input0, pre, (max_steps - used) as nat)
                                == ExecStatus::Failed(e, self.state_of()));
                            assert(vm_run(code0, input0, m0, max_steps as nat)
                                == ExecStatus::Failed(e, self.state_of()));
                        }
                        return Err(e);
                    }
                },
                OpCode::SubP(offset) => {
                    let res = self.sub_ptr(offset);
                    if let Err(e) = res {
                        proof {
                            assert(vm_step(code0, input0, pre) == ExecStatus::Failed(
                                e,
                                self.state_of(),
                            ));
                            lemma_vm_run_add(code0, input0, m0, used, (max_steps - used) as nat);
                            assert(vm_run(code0, input0, pre, (max_steps - used) as nat)
                                == ExecStatus::Failed(e, self.state_of()));
                            assert(vm_run(code0, input0, m0, max_steps as nat)
                                == ExecStatus::Failed(e, self.state_of()));
                        }
                        return Err(e);
                    }
                },
                OpCode::Write => self.write(),
                OpCode::Read => {
                    let res = self.read();
                    if let Err(e) = res {
                        proof {
                            assert(vm_step(code0, input0, pre) == ExecStatus::Failed(
                                e,
                                self.state_of(),
                            ));
                            lemma_vm_run_add(code0, input0, m0, used, (max_steps - used) as nat);
                            assert(vm_run(code0, input0, pre, (max_steps - used) as nat)
                                == ExecStatus::Failed(e, self.state_of()));
                            assert(vm_run(code0, input0, m0, max_steps as nat)
                                == ExecStatus::Failed(e, self.state_of()));
                        }
                        return Err(e);
                    }
                },
                OpCode::Jz(line) => self.jmp_zero(line),
                OpCode::Jmp(line) => self.jmp(line),
                OpCode::End => {
                    proof {
                        assert(false);
                    }
                    return Err(BFVMError::StepLimitReached);
                },
            }
            proof {
                assert(vm_step(code0, input0, pre) == ExecStatus::Running(self.state_of()));
                lemma_vm_run_add(code0, input0, m0, used, 1);
                assert(vm_run(code0, input0, self.state_of(), 0nat) == ExecStatus::Running(
                    self.state_of(),
                ));
                assert(vm_run(code0, input0, pre, 1nat) == ExecStatus::Running(self.state_of()));
                assert(vm_run(code0, input0, m0, used + 1) == ExecStatus::Running(
                    self.state_of(),
                ));
            }
            remaining = remaining - 1;
            proof {
                assert((max_steps - remaining) as nat == used + 1);
            }
        }
        if remaining > 0 {
            proof {
                let used: nat = (max_steps - remaining) as nat;
                lemma_vm_run_add(code0, input0, m0, used, (max_steps - used) as nat);
                assert(vm_step(code0, input0, self.state_of()) == ExecStatus::Halted(
                    self.state_of(),
                ));
                assert(vm_run(code0, input0, self.state_of(), (max_steps - used) as nat)
                    == ExecStatus::Halted(self.state_of()));
            }
            Ok(())
        } else {
            Err(BFVMError::StepLimitReached)
        }
    }

    /// The bytes the program has written so far.
    pub fn output(&self) -> (r: &Vec<u8>)
        ensures
            r@ == self.output@,
    {
        &self.output
    }

    /// Consumes the machine and hands back the bytes the program wrote.
    pub fn into_output(self) -> (r: Vec<u8>)
        ensures
            r@ == self.output@,
    {
        self.output
    }

    /// The current value of the data pointer.
    pub fn data_pointer(&self) -> (r: usize)
        ensures
            r == self.data_ptr,
    {
        self.data_ptr
    }

    /// The value of the tape cell at `index`.
    pub fn cell(&self, index: usize) -> (r: u8)
        requires
            self.inv(),
            index < DATA_SIZE,
        ensures
            r == self.data@[index as int],
    {
        self.data[index]
    }

    /// Overwrites the tape cell at `index`, leaving the rest of the
    /// machine untouched.  This is for embedders and tests that want to
    /// run a program on a prepared tape.
    pub fn set_cell(&mut self, index: usize, value: u8)
        requires
            old(self).inv(),
            index < DATA_SIZE,
        ensures
            final(self).inv(),
            final(self).data@ == old(self).data@.update(index as int, value),
            final(self).data_ptr == old(self).data_ptr,
            final(self).instructions@ == old(self).instructions@,
            final(self).instr_ptr == old(self).instr_ptr,
            final(self).input@ == old(self).input@,
            final(self).input_pos == old(self).input_pos,
            final(self).output@ == old(self).output@,
    {
        self.data.set(index, value);
    }
}

} // verus!
