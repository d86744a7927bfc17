//! The Brainfuck compiler: a single left-to-right pass over the token
//! stream that folds runs of repeated arithmetic or pointer-move tokens
//! into one instruction each, and resolves the jump targets of matching
//! brackets with an explicit stack of pending open brackets, patching each
//! open bracket's placeholder once its closing bracket is seen.

use vstd::prelude::*;
use crate::error::BFVMError;
use crate::lexer::Lexer;
use crate::lexer::SourcePosition;
use crate::lexer::Token;
use crate::lexer::lex_from;

verus! {

/// One compiled instruction of the virtual machine's linear bytecode.
///
/// `AddB`/`SubB` carry how many `+`/`-` tokens were folded into them,
/// accumulated modulo 256 (the cell arithmetic is modulo 256, so the
/// folded effect is unchanged).  `AddP`/`SubP` carry how many `>`/`<`
/// tokens were folded.  `Jz` jumps to its target when the current cell is
/// zero: the target is the index just past the matching `Jmp`.  `Jmp`
/// unconditionally jumps back to its matching `Jz`, so the loop condition
/// is re-evaluated each iteration.  `End` is the terminal sentinel, always
/// the last instruction emitted.
#[derive(PartialEq, Eq, Structural, Clone, Copy, Debug)]
pub enum OpCode {
    AddB(u8),
    SubB(u8),
    AddP(usize),
    SubP(usize),
    Write,
    Read,
    Jmp(usize),
    Jz(usize),
    End,
}

/// The number of leading tokens of `toks` equal to `t`.
pub open spec fn run_length(toks: Seq<(Token, SourcePosition)>, t: Token) -> nat
    decreases toks.len(),
{
    if toks.len() == 0 || toks[0].0 != t {
        0
    } else {
        1 + run_length(toks.skip(1), t)
    }
}

/// A run is never longer than the stream it starts.
pub proof fn lemma_run_length_le(toks: Seq<(Token, SourcePosition)>, t: Token)
    ensures
        run_length(toks, t) <= toks.len(),
    decreases toks.len(),
{
    if toks.len() > 0 && toks[0].0 == t {
        lemma_run_length_le(toks.skip(1), t);
    }
}

/// What the single compilation pass produces from the token stream `toks`,
/// given the instructions `code` already emitted and the stack of pending
/// open brackets `stack` (each entry: the index of an unpatched `Jz`
/// placeholder, and the source position of its `[`).
///
/// * A run of `+`/`-` becomes one `AddB`/`SubB` with the run length taken
///   modulo 256; a run of `>`/`<` becomes one `AddP`/`SubP`.
/// * `[` emits a `Jz(0)` placeholder and pushes its index.
/// * `]` pops the latest open bracket, patches its placeholder to point
///   just past the `Jmp` about to be emitted, and emits `Jmp` back to it.
///   With nothing to pop, the closing bracket is an unexpected token.
/// * At the end of input, a non-empty stack means an unclosed loop,
///   reported at the innermost unmatched `[`; otherwise the `End` sentinel
///   is appended.
pub open spec fn compile_loop(
    toks: Seq<(Token, SourcePosition)>,
    code: Seq<OpCode>,
    stack: Seq<(int, SourcePosition)>,
) -> Result<Seq<OpCode>, BFVMError>
    decreases toks.len(),
{
    if toks.len() == 0 {
        if stack.len() == 0 {
            Ok(code.push(OpCode::End))
        } else {
            Err(BFVMError::LoopNotClosed(stack.last().1))
        }
    } else {
        let t = toks[0].0;
        let p = toks[0].1;
        proof {
            lemma_run_length_le(toks, toks[0].0);
        }
        match t {
            Token::Plus => {
                let n = run_length(toks, t);
                compile_loop(toks.skip(n as int), code.push(OpCode::AddB((n % 256) as u8)), stack)
            },
            Token::Minus => {
                let n = run_length(toks, t);
                compile_loop(toks.skip(n as int), code.push(OpCode::SubB((n % 256) as u8)), stack)
            },
            Token::ArrowRight => {
                let n = run_length(toks, t);
                compile_loop(toks.skip(n as int), code.push(OpCode::AddP(n as usize)), stack)
            },
            Token::ArrowLeft => {
                let n = run_length(toks, t);
                compile_loop(toks.skip(n as int), code.push(OpCode::SubP(n as usize)), stack)
            },
            Token::Dot => compile_loop(toks.skip(1), code.push(OpCode::Write), stack),
            Token::Comma => compile_loop(toks.skip(1), code.push(OpCode::Read), stack),
            Token::BracketLeft => compile_loop(
                toks.skip(1),
                code.push(OpCode::Jz(0)),
                stack.push((code.len() as int, p)),
            ),
            Token::BracketRight => {
                if stack.len() == 0 {
                    Err(BFVMError::UnexpectedToken(p, Token::BracketRight))
                } else {
                    let open = stack.last().0;
                    compile_loop(
                        toks.skip(1),
                        code.update(open, OpCode::Jz((code.len() + 1) as usize)).push(
                            OpCode::Jmp(open as usize),
                        ),
                        stack.drop_last(),
                    )
                }
            },
            Token::EndOfFile => Err(BFVMError::UnexpectedToken(p, t)),
        }
    }
}

/// The compilation of a whole token stream, started with nothing emitted
/// and no pending brackets.
pub open spec fn spec_compile_tokens(
    toks: Seq<(Token, SourcePosition)>,
) -> Result<Seq<OpCode>, BFVMError> {
    compile_loop(toks, Seq::empty(), Seq::empty())
}

/// The compilation of a whole source text: lex it from the beginning, then
/// compile the token stream.
pub open spec fn spec_compile_source(s: Seq<char>) -> Result<Seq<OpCode>, BFVMError> {
    spec_compile_tokens(lex_from(s, SourcePosition::spec_begin()))
}

/// Splitting a one-element prefix off a concatenation recovers its parts.
proof fn lemma_cons_parts<A>(x: A, r: Seq<A>)
    ensures
        (seq![x] + r).len() == r.len() + 1,
        (seq![x] + r)[0] == x,
        (seq![x] + r).skip(1) == r,
{
    assert((seq![x] + r).skip(1) =~= r);
}

/// The Brainfuck compiler.  It owns its lexer exclusively, keeps one token
/// of lookahead, and counts the instructions emitted so far so that jump
/// targets can be patched in.
pub struct Compiler {
    /// The current lookahead token.
    pub token: Token,
    /// The lexical analyzer producing the tokens.
    pub lexer: Lexer,
    /// The index of the next instruction to be emitted.
    pub currln: usize,
}

impl Compiler {
    /// The compiler is usable: its lexer is well formed.
    pub open spec fn wf(self) -> bool {
        self.lexer.wf()
    }

    /// The tokens still to be compiled: the lookahead token (with the
    /// position the lexer had when it was read), followed by whatever the
    /// lexer has not yet handed out.  Once the lookahead is the end-of-file
    /// sentinel, nothing is left.
    pub open spec fn pending(self) -> Seq<(Token, SourcePosition)> {
        if self.token == Token::EndOfFile {
            Seq::empty()
        } else {
            seq![(self.token, self.lexer.position)] + self.lexer.remaining()
        }
    }

    /// Creates a compiler over the given source text.
    pub fn new(source: &str) -> (c: Compiler)
        requires
            source@.len() + 2 <= usize::MAX,
        ensures
            c.wf(),
            c.currln == 0,
            c.lexer.source@ == source@,
            c.lexer.remaining() == lex_from(source@, SourcePosition::spec_begin()),
    {
        Compiler { token: Token::EndOfFile, lexer: Lexer::from_source(source), currln: 0 }
    }

    /// Creates a compiler over the given source text.
    pub fn from_source(source: &str) -> (c: Compiler)
        requires
            source@.len() + 2 <= usize::MAX,
        ensures
            c.wf(),
            c.currln == 0,
            c.lexer.source@ == source@,
            c.lexer.remaining() == lex_from(source@, SourcePosition::spec_begin()),
    {
        Compiler::new(source)
    }

    /// Pulls the next token from the lexer into the lookahead slot.
    fn advance_token(&mut self)
        requires
            old(self).wf(),
        ensures
            final(self).wf(),
            final(self).lexer.source@ == old(self).lexer.source@,
            final(self).currln == old(self).currln,
            final(self).pending() == old(self).lexer.remaining(),
            old(self).token != Token::EndOfFile ==> final(self).pending() == old(self).pending().skip(1),
    {
        let ghost pre: Compiler = *self;
        self.token = self.lexer.next_token();
        proof {
            let rem = pre.lexer.remaining();
            if rem.len() == 0 {
                assert(self.pending() =~= rem);
            } else {
                lemma_cons_parts((self.token, self.lexer.position), self.lexer.remaining());
                assert(self.pending() =~= rem);
            }
            if pre.token != Token::EndOfFile {
                lemma_cons_parts((pre.token, pre.lexer.position), rem);
            }
        }
    }
    /// Greedily consumes the run of `+` tokens at the head of the stream
    /// and emits one `AddB` carrying the run length modulo 256.
    fn parse_add_byte(&mut self, code: &mut Vec<OpCode>)
        requires
            old(self).wf(),
            old(self).pending().len() > 0,
            old(self).pending()[0].0 == Token::Plus,
            old(self).currln == old(code)@.len(),
            old(code)@.len() + old(self).pending().len() + 1 <= usize::MAX,
        ensures
            final(self).wf(),
            final(self).lexer.source@ == old(self).lexer.source@,
            final(self).currln == old(self).currln + 1,
            final(self).currln == final(code)@.len(),
            final(code)@ == old(code)@.push(
                OpCode::AddB((run_length(old(self).pending(), Token::Plus) % 256) as u8),
            ),
            final(self).pending() == old(self).pending().skip(
                run_length(old(self).pending(), Token::Plus) as int,
            ),
            final(code)@.len() + final(self).pending().len() <= old(code)@.len() + old(
                self,
            ).pending().len(),
    {
        let mut operand: u8 = 0;
        let ghost p0: Seq<(Token, SourcePosition)> = old(self).pending();
        let ghost mut consumed: nat = 0nat;
        proof {
            assert(p0.skip(0) =~= p0);
        }
        while self.token == Token::Plus
            invariant
                self.wf(),
                self.lexer.source@ == old(self).lexer.source@,
                self.currln == old(self).currln,
                p0 == old(self).pending(),
                self.pending() == p0.skip(consumed as int),
                run_length(p0, Token::Plus) == consumed + run_length(
                    self.pending(),
                    Token::Plus,
                ),
                operand as nat == consumed % 256,
                consumed <= p0.len(),
            decreases p0.len() - consumed,
        {
            proof {
                lemma_cons_parts((self.token, self.lexer.position), self.lexer.remaining());
            }
            let ghost pcur = self.pending();
            let ghost opre = operand;
            operand = operand.wrapping_add(1);
            self.advance_token();
            proof {
                lemma_mod256_step(consumed, opre);
                consumed = consumed + 1;
                assert(pcur.skip(1) =~= p0.skip(consumed as int));
            }
        }
        proof {
            if self.pending().len() > 0 {
                lemma_cons_parts((self.token, self.lexer.position), self.lexer.remaining());
            }
            assert(run_length(self.pending(), Token::Plus) == 0);
        }
        code.push(OpCode::AddB(operand));
        self.currln = self.currln + 1;
    }

    /// Greedily consumes the run of `-` tokens at the head of the stream
    /// and emits one `SubB` carrying the run length modulo 256.
    fn parse_sub_byte(&mut self, code: &mut Vec<OpCode>)
        requires
            old(self).wf(),
            old(self).pending().len() > 0,
            old(self).pending()[0].0 == Token::Minus,
            old(self).currln == old(code)@.len(),
            old(code)@.len() + old(self).pending().len() + 1 <= usize::MAX,
        ensures
            final(self).wf(),
            final(self).lexer.source@ == old(self).lexer.source@,
            final(self).currln == old(self).currln + 1,
            final(self).currln == final(code)@.len(),
            final(code)@ == old(code)@.push(
                OpCode::SubB((run_length(old(self).pending(), Token::Minus) % 256) as u8),
            ),
            final(self).pending() == old(self).pending().skip(
                run_length(old(self).pending(), Token::Minus) as int,
            ),
            final(code)@.len() + final(self).pending().len() <= old(code)@.len() + old(
                self,
            ).pending().len(),
    {
        let mut operand: u8 = 0;
        let ghost p0: Seq<(Token, SourcePosition)> = old(self).pending();
        let ghost mut consumed: nat = 0nat;
        proof {
            assert(p0.skip(0) =~= p0);
        }
        while self.token == Token::Minus
            invariant
                self.wf(),
                self.lexer.source@ == old(self).lexer.source@,
                self.currln == old(self).currln,
                p0 == old(self).pending(),
                self.pending() == p0.skip(consumed as int),
                run_length(p0, Token::Minus) == consumed + run_length(
                    self.pending(),
                    Token::Minus,
                ),
                operand as nat == consumed % 256,
                consumed <= p0.len(),
            decreases p0.len() - consumed,
        {
            proof {
                lemma_cons_parts((self.token, self.lexer.position), self.lexer.remaining());
            }
            let ghost pcur = self.pending();
            let ghost opre = operand;
            operand = operand.wrapping_add(1);
            self.advance_token();
            proof {
                lemma_mod256_step(consumed, opre);
                consumed = consumed + 1;
                assert(pcur.skip(1) =~= p0.skip(consumed as int));
            }
        }
        proof {
            if self.pending().len() > 0 {
                lemma_cons_parts((self.token, self.lexer.position), self.lexer.remaining());
            }
            assert(run_length(self.pending(), Token::Minus) == 0);
        }
        code.push(OpCode::SubB(operand));
        self.currln = self.currln + 1;
    }

    /// Greedily consumes the run of `>` tokens at the head of the stream
    /// and emits one `AddP` carrying the run length.
    fn parse_add_ptr(&mut self, code: &mut Vec<OpCode>)
        requires
            old(self).wf(),
            old(self).pending().len() > 0,
            old(self).pending()[0].0 == Token::ArrowRight,
            old(self).currln == old(code)@.len(),
            old(code)@.len() + old(self).pending().len() + 1 <= usize::MAX,
        ensures
            final(self).wf(),
            final(self).lexer.source@ == old(self).lexer.source@,
            final(self).currln == old(self).currln + 1,
            final(self).currln == final(code)@.len(),
            final(code)@ == old(code)@.push(
                OpCode::AddP(run_length(old(self).pending(), Token::ArrowRight) as usize),
            ),
            final(self).pending() == old(self).pending().skip(
                run_length(old(self).pending(), Token::ArrowRight) as int,
            ),
            final(code)@.len() + final(self).pending().len() <= old(code)@.len() + old(
                self,
            ).pending().len(),
    {
        let mut offset: usize = 0;
        let ghost p0: Seq<(Token, SourcePosition)> = old(self).pending();
        let ghost mut consumed: nat = 0nat;
        proof {
            assert(p0.skip(0) =~= p0);
        }
        while self.token == Token::ArrowRight
            invariant
                self.wf(),
                self.lexer.source@ == old(self).lexer.source@,
                self.currln == old(self).currln,
                p0 == old(self).pending(),
                p0.len() + 1 <= usize::MAX,
                self.pending() == p0.skip(consumed as int),
                run_length(p0, Token::ArrowRight) == consumed + run_length(
                    self.pending(),
                    Token::ArrowRight,
                ),
                offset as nat == consumed,
                consumed <= p0.len(),
            decreases p0.len() - consumed,
        {
            proof {
                lemma_cons_parts((self.token, self.lexer.position), self.lexer.remaining());
            }
            let ghost pcur = self.pending();
            offset = offset + 1;
            self.advance_token();
            proof {
                consumed = consumed + 1;
                assert(pcur.skip(1) =~= p0.skip(consumed as int));
            }
        }
        proof {
            if self.pending().len() > 0 {
                lemma_cons_parts((self.token, self.lexer.position), self.lexer.remaining());
            }
            assert(run_length(self.pending(), Token::ArrowRight) == 0);
        }
        code.push(OpCode::AddP(offset));
        self.currln = self.currln + 1;
    }

    /// Greedily consumes the run of `<` tokens at the head of the stream
    /// and emits one `SubP` carrying the run length.
    fn parse_sub_ptr(&mut self, code: &mut Vec<OpCode>)
        requires
            old(self).wf(),
            old(self).pending().len() > 0,
            old(self).pending()[0].0 == Token::ArrowLeft,
            old(self).currln == old(code)@.len(),
            old(code)@.len() + old(self).pending().len() + 1 <= usize::MAX,
        ensures
            final(self).wf(),
            final(self).lexer.source@ == old(self).lexer.source@,
            final(self).currln == old(self).currln + 1,
            final(self).currln == final(code)@.len(),
            final(code)@ == old(code)@.push(
                OpCode::SubP(run_length(old(self).pending(), Token::ArrowLeft) as usize),
            ),
            final(self).pending() == old(self).pending().skip(
                run_length(old(self).pending(), Token::ArrowLeft) as int,
            ),
            final(code)@.len() + final(self).pending().len() <= old(code)@.len() + old(
                self,
            ).pending().len(),
    {
        let mut offset: usize = 0;
        let ghost p0: Seq<(Token, SourcePosition)> = old(self).pending();
        let ghost mut consumed: nat = 0nat;
        proof {
            assert(p0.skip(0) =~= p0);
        }
        while self.token == Token::ArrowLeft
            invariant
                self.wf(),
                self.lexer.source@ == old(self).lexer.source@,
                self.currln == old(self).currln,
                p0 == old(self).pending(),
                p0.len() + 1 <= usize::MAX,
                self.pending() == p0.skip(consumed as int),
                run_length(p0, Token::ArrowLeft) == consumed + run_length(
                    self.pending(),
                    Token::ArrowLeft,
                ),
                offset as nat == consumed,
                consumed <= p0.len(),
            decreases p0.len() - consumed,
        {
            proof {
                lemma_cons_parts((self.token, self.lexer.position), self.lexer.remaining());
            }
            let ghost pcur = self.pending();
            offset = offset + 1;
            self.advance_token();
            proof {
                consumed = consumed + 1;
                assert(pcur.skip(1) =~= p0.skip(consumed as int));
            }
        }
        proof {
            if self.pending().len() > 0 {
                lemma_cons_parts((self.token, self.lexer.position), self.lexer.remaining());
            }
            assert(run_length(self.pending(), Token::ArrowLeft) == 0);
        }
        code.push(OpCode::SubP(offset));
        self.currln = self.currln + 1;
    }

    /// Consumes one `.` token and emits a `Write`.
    fn parse_write(&mut self, code: &mut Vec<OpCode>)
        requires
            old(self).wf(),
            old(self).pending().len() > 0,
            old(self).pending()[0].0 == Token::Dot,
            old(self).currln == old(code)@.len(),
            old(code)@.len() + old(self).pending().len() + 1 <= usize::MAX,
        ensures
            final(self).wf(),
            final(self).lexer.source@ == old(self).lexer.source@,
            final(self).currln == old(self).currln + 1,
            final(self).currln == final(code)@.len(),
            final(code)@ == old(code)@.push(OpCode::Write),
            final(self).pending() == old(self).pending().skip(1),
            final(code)@.len() + final(self).pending().len() <= old(code)@.len() + old(
                self,
            ).pending().len(),
    {
        code.push(OpCode::Write);
        self.advance_token();
        self.currln = self.currln + 1;
    }

    /// Consumes one `,` token and emits a `Read`.
    fn parse_read(&mut self, code: &mut Vec<OpCode>)
        requires
            old(self).wf(),
            old(self).pending().len() > 0,
            old(self).pending()[0].0 == Token::Comma,
            old(self).currln == old(code)@.len(),
            old(code)@.len() + old(self).pending().len() + 1 <= usize::MAX,
        ensures
            final(self).wf(),
            final(self).lexer.source@ == old(self).lexer.source@,
            final(self).currln == old(self).currln + 1,
            final(self).currln == final(code)@.len(),
            final(code)@ == old(code)@.push(OpCode::Read),
            final(self).pending() == old(self).pending().skip(1),
            final(code)@.len() + final(self).pending().len() <= old(code)@.len() + old(
                self,
            ).pending().len(),
    {
        code.push(OpCode::Read);
        self.advance_token();
        self.currln = self.currln + 1;
    }
}

/// The stack of pending open brackets as the compilation model sees it:
/// each entry is the index of an unpatched `Jz` placeholder and the source
/// position of its `[`.
pub open spec fn stack_model(braces: Seq<(usize, SourcePosition)>) -> Seq<(int, SourcePosition)> {
    braces.map_values(|b: (usize, SourcePosition)| (b.0 as int, b.1))
}

impl Compiler {
    /// Compiles a bracketed loop: emits the `Jz` placeholder for the `[`
    /// just consumed, then processes tokens, tracking nested loops with an
    /// explicit stack, until the matching `]` patches the placeholder and
    /// empties the stack.  Reaching the end of input first is an unclosed
    /// loop, reported at the innermost unmatched `[`.
    fn parse_conditional(&mut self, code: &mut Vec<OpCode>) -> (r: Result<(), BFVMError>)
        requires
            old(self).wf(),
            old(self).pending().len() > 0,
            old(self).pending()[0].0 == Token::BracketLeft,
            old(self).currln == old(code)@.len(),
            old(code)@.len() + old(self).pending().len() + 1 <= usize::MAX,
        ensures
            final(self).wf(),
            final(self).lexer.source@ == old(self).lexer.source@,
            match r {
                Ok(_) => {
                    &&& final(self).currln == final(code)@.len()
                    &&& final(self).pending().len() < old(self).pending().len()
                    &&& final(code)@.len() + final(self).pending().len() <= old(code)@.len()
                        + old(self).pending().len()
                    &&& compile_loop(final(self).pending(), final(code)@, Seq::empty())
                        == compile_loop(old(self).pending(), old(code)@, Seq::empty())
                },
                Err(e) => compile_loop(old(self).pending(), old(code)@, Seq::empty())
                    == Err::<Seq<OpCode>, BFVMError>(e),
            },
    {
        let mut braces: Vec<(usize, SourcePosition)> = Vec::new();
        proof {
            lemma_cons_parts((self.token, self.lexer.position), self.lexer.remaining());
        }
        braces.push((self.currln, self.lexer.position()));
        self.currln = self.currln + 1;
        code.push(OpCode::Jz(0));
        self.advance_token();
        proof {
            let st0 = Seq::<(int, SourcePosition)>::empty().push(
                (old(code)@.len() as int, old(self).pending()[0].1),
            );
            assert(stack_model(braces@) =~= st0);
            assert(compile_loop(old(self).pending(), old(code)@, Seq::empty())
                == compile_loop(old(self).pending().skip(1), old(code)@.push(OpCode::Jz(0)), st0));
        }
        while braces.len() > 0
            invariant
                self.wf(),
                self.lexer.source@ == old(self).lexer.source@,
                self.currln == code@.len(),
                code@.len() + self.pending().len() <= old(code)@.len() + old(
                    self,
                ).pending().len(),
                old(code)@.len() + old(self).pending().len() + 1 <= usize::MAX,
                self.pending().len() < old(self).pending().len(),
                forall|k: int|
                    0 <= k < braces@.len() ==> (#[trigger] braces@[k]).0 < code@.len(),
                compile_loop(self.pending(), code@, stack_model(braces@)) == compile_loop(
                    old(self).pending(),
                    old(code)@,
                    Seq::empty(),
                ),
            decreases self.pending().len(),
        {
            let ghost pp = self.pending();
            let ghost cc = code@;
            let ghost st = stack_model(braces@);
            proof {
                if self.token != Token::EndOfFile {
                    lemma_cons_parts((self.token, self.lexer.position), self.lexer.remaining());
                }
            }
            match self.token {
                Token::Plus => {
                    self.parse_add_byte(code);
                    proof {
                        let n = run_length(pp, Token::Plus);
                        assert(compile_loop(pp, cc, st) == compile_loop(
                            pp.skip(n as int),
                            cc.push(OpCode::AddB((n % 256) as u8)),
                            st,
                        ));
                    }
                },
                Token::Minus => {
                    self.parse_sub_byte(code);
                    proof {
                        let n = run_length(pp, Token::Minus);
                        assert(compile_loop(pp, cc, st) == compile_loop(
                            pp.skip(n as int),
                            cc.push(OpCode::SubB((n % 256) as u8)),
                            st,
                        ));
                    }
                },
                Token::ArrowLeft => {
                    self.parse_sub_ptr(code);
                    proof {
                        let n = run_length(pp, Token::ArrowLeft);
                        assert(compile_loop(pp, cc, st) == compile_loop(
                            pp.skip(n as int),
                            cc.push(OpCode::SubP(n as usize)),
                            st,
                        ));
                    }
                },
                Token::ArrowRight => {
                    self.parse_add_ptr(code);
                    proof {
                        let n = run_length(pp, Token::ArrowRight);
                        assert(compile_loop(pp, cc, st) == compile_loop(
                            pp.skip(n as int),
                            cc.push(OpCode::AddP(n as usize)),
                            st,
                        ));
                    }
                },
                Token::Dot => {
                    self.parse_write(code);
                    proof {
                        assert(compile_loop(pp, cc, st) == compile_loop(
                            pp.skip(1),
                            cc.push(OpCode::Write),
                            st,
                        ));
                    }
                },
                Token::Comma => {
                    self.parse_read(code);
                    proof {
                        assert(compile_loop(pp, cc, st) == compile_loop(
                            pp.skip(1),
                            cc.push(OpCode::Read),
                            st,
                        ));
                    }
                },
                Token::BracketLeft => {
                    braces.push((self.currln, self.lexer.position()));
                    self.currln = self.currln + 1;
                    code.push(OpCode::Jz(0));
                    self.advance_token();
                    proof {
                        assert(stack_model(braces@) =~= st.push((cc.len() as int, pp[0].1)));
                        assert(compile_loop(pp, cc, st) == compile_loop(
                            pp.skip(1),
                            cc.push(OpCode::Jz(0)),
                            st.push((cc.len() as int, pp[0].1)),
                        ));
                    }
                },
                Token::BracketRight => {
                    let popped = braces.pop();
                    match popped {
                        Some(open) => {
                            proof {
                                assert(st.last() == (open.0 as int, open.1));
                                assert(stack_model(braces@) =~= st.drop_last());
                            }
                            self.currln = self.currln + 1;
                            code.set(open.0, OpCode::Jz(self.currln));
                            code.push(OpCode::Jmp(open.0));
                            self.advance_token();
                            proof {
                                assert(compile_loop(pp, cc, st) == compile_loop(
                                    pp.skip(1),
                                    cc.update(open.0 as int, OpCode::Jz((cc.len() + 1) as usize))
                                        .push(OpCode::Jmp(open.0)),
                                    st.drop_last(),
                                ));
                            }
                        },
                        None => {
                            proof {
                                assert(false);
                            }
                            return Err(
                                BFVMError::UnexpectedToken(
                                    self.lexer.position(),
                                    Token::BracketRight,
                                ),
                            );
                        },
                    }
                },
                Token::EndOfFile => {
                    let popped = braces.pop();
                    match popped {
                        Some(open) => {
                            proof {
                                assert(st.last() == (open.0 as int, open.1));
                            }
                            return Err(BFVMError::LoopNotClosed(open.1));
                        },
                        None => {
                            proof {
                                assert(false);
                            }
                            return Err(BFVMError::StackEmpty(self.lexer.position()));
                        },
                    }
                },
            }
        }
        proof {
            assert(stack_model(braces@) =~= Seq::<(int, SourcePosition)>::empty());
        }
        Ok(())
    }

    /// Compiles the whole pending token stream into a flat instruction
    /// sequence terminated by the `End` sentinel.  A closing bracket with
    /// no open loop is an unexpected token.
    fn parse_program(&mut self, code: &mut Vec<OpCode>) -> (r: Result<(), BFVMError>)
        requires
            old(self).wf(),
            old(self).currln == old(code)@.len(),
            old(code)@.len() + old(self).pending().len() + 1 <= usize::MAX,
        ensures
            final(self).wf(),
            match r {
                Ok(_) => compile_loop(old(self).pending(), old(code)@, Seq::empty())
                    == Ok::<Seq<OpCode>, BFVMError>(final(code)@),
                Err(e) => compile_loop(old(self).pending(), old(code)@, Seq::empty())
                    == Err::<Seq<OpCode>, BFVMError>(e),
            },
    {
        while self.token != Token::EndOfFile
            invariant
                self.wf(),
                self.currln == code@.len(),
                code@.len() + self.pending().len() <= old(code)@.len() + old(
                    self,
                ).pending().len(),
                old(code)@.len() + old(self).pending().len() + 1 <= usize::MAX,
                compile_loop(self.pending(), code@, Seq::empty()) == compile_loop(
                    old(self).pending(),
                    old(code)@,
                    Seq::empty(),
                ),
            decreases self.pending().len(),
        {
            let ghost pp = self.pending();
            let ghost cc = code@;
            let ghost st = Seq::<(int, SourcePosition)>::empty();
            proof {
                lemma_cons_parts((self.token, self.lexer.position), self.lexer.remaining());
            }
            match self.token {
                Token::Plus => {
                    self.parse_add_byte(code);
                    proof {
                        let n = run_length(pp, Token::Plus);
                        assert(compile_loop(pp, cc, st) == compile_loop(
                            pp.skip(n as int),
                            cc.push(OpCode::AddB((n % 256) as u8)),
                            st,
                        ));
                    }
                },
                Token::Minus => {
                    self.parse_sub_byte(code);
                    proof {
                        let n = run_length(pp, Token::Minus);
                        assert(compile_loop(pp, cc, st) == compile_loop(
                            pp.skip(n as int),
                            cc.push(OpCode::SubB((n % 256) as u8)),
                            st,
                        ));
                    }
                },
                Token::ArrowLeft => {
                    self.parse_sub_ptr(code);
                    proof {
                        let n = run_length(pp, Token::ArrowLeft);
                        assert(compile_loop(pp, cc, st) == compile_loop(
                            pp.skip(n as int),
                            cc.push(OpCode::SubP(n as usize)),
                            st,
                        ));
                    }
                },
                Token::ArrowRight => {
                    self.parse_add_ptr(code);
                    proof {
                        let n = run_length(pp, Token::ArrowRight);
                        assert(compile_loop(pp, cc, st) == compile_loop(
                            pp.skip(n as int),
                            cc.push(OpCode::AddP(n as usize)),
                            st,
                        ));
                    }
                },
                Token::Dot => {
                    self.parse_write(code);
                    proof {
                        assert(compile_loop(pp, cc, st) == compile_loop(
                            pp.skip(1),
                            cc.push(OpCode::Write),
                            st,
                        ));
                    }
                },
                Token::Comma => {
                    self.parse_read(code);
                    proof {
                        assert(compile_loop(pp, cc, st) == compile_loop(
                            pp.skip(1),
                            cc.push(OpCode::Read),
                            st,
                        ));
                    }
                },
                Token::BracketLeft => {
                    let res = self.parse_conditional(code);
                    match res {
                        Ok(_) => {},
                        Err(e) => {
                            return Err(e);
                        },
                    }
                },
                Token::BracketRight => {
                    return Err(
                        BFVMError::UnexpectedToken(self.lexer.position(), Token::BracketRight),
                    );
                },
                Token::EndOfFile => {
                    proof {
                        assert(false);
                    }
                    return Err(BFVMError::StackEmpty(self.lexer.position()));
                },
            }
        }
        code.push(OpCode::End);
        Ok(())
    }

    /// Runs the single compilation pass over the tokens the lexer has not
    /// yet handed out and returns the finished instruction sequence, or the
    /// first structural error.
    pub fn compile(&mut self) -> (r: Result<Vec<OpCode>, BFVMError>)
        requires
            old(self).wf(),
        ensures
            final(self).wf(),
            match r {
                Ok(code) => spec_compile_tokens(old(self).lexer.remaining())
                    == Ok::<Seq<OpCode>, BFVMError>(code@),
                Err(e) => spec_compile_tokens(old(self).lexer.remaining())
                    == Err::<Seq<OpCode>, BFVMError>(e),
            },
    {
        let mut code: Vec<OpCode> = Vec::new();
        self.currln = 0;
        self.advance_token();
        proof {
            crate::lexer::lemma_lex_from_len(
                old(self).lexer.source@.skip(old(self).lexer.curr as int),
                old(self).lexer.position,
            );
        }
        let r = self.parse_program(&mut code);
        match r {
            Ok(_) => Ok(code),
            Err(e) => Err(e),
        }
    }
}

/// Adding one more to a byte that stands for `consumed` modulo 256 keeps it
/// standing for `consumed + 1` modulo 256.
proof fn lemma_mod256_step(consumed: nat, operand: u8)
    requires
        operand as nat == consumed % 256,
    ensures
        vstd::wrapping::u8_specs::wrapping_add(operand, 1) as nat == (consumed + 1) % 256,
{
    vstd::arithmetic::div_mod::lemma_add_mod_noop(consumed as int, 1, 256);
    if operand == 255 {
        assert((256int % 256) == 0);
    } else {
        vstd::arithmetic::div_mod::lemma_small_mod(operand as nat + 1, 256);
    }
}

} // verus!
