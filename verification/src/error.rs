//! The single error taxonomy shared by the whole pipeline: source loading,
//! compilation and execution each surface exactly one classified failure
//! value to the top-level caller; nothing is retried or recovered.

use vstd::prelude::*;
use crate::lexer::SourcePosition;
use crate::lexer::Token;

verus! {

/// Everything that can go wrong while loading, compiling or running a
/// Brainfuck program.
///
/// Compile-time errors carry the line/column position the lexer had reached
/// when the offending token was consumed.  Runtime errors carry no
/// position: the virtual machine works on compiled instructions, not on
/// source text.
///
/// `Read` at exhausted input is an error here (`FailedToReadByte`), the
/// strictest of the conventional choices; the cell is only written when a
/// byte was actually available.  `StepLimitReached` reports that execution
/// was cut off by the caller-supplied step budget before the program
/// halted.
#[derive(Debug, Clone, PartialEq, Eq)]
pub enum BFVMError {
    /// No source file was named on the command line.
    NoSources,
    /// The named source file could not be read.
    FailedReadingFromFile(String),
    /// A character was handed to the token conversion that is not one of
    /// the eight instruction characters.
    NotABrainfuckOperator(char),
    /// A token arrived where the grammar does not allow it; in practice a
    /// closing bracket with no matching open bracket.
    UnexpectedToken(SourcePosition, Token),
    /// The input ended while a loop was still open; the position is that of
    /// the innermost unmatched open bracket.
    LoopNotClosed(SourcePosition),
    /// A closing bracket was popped from an empty bracket stack.
    StackEmpty(SourcePosition),
    /// A `Read` instruction found the input exhausted.
    FailedToReadByte,
    /// A pointer move left the data pointer outside the tape.
    DataPointerOutOfRange,
    /// The step budget ran out before the program halted.
    StepLimitReached,
}

} // verus!
