//! Theorems about the compiler's output: every successful compilation
//! produces a well-formed instruction sequence whose `Jz`/`Jmp` pairs point
//! at each other, which in particular makes the sequence safe for the
//! virtual machine to run.

use vstd::prelude::*;
use crate::bfc::OpCode;
use crate::bfc::compile_loop;
use crate::bfc::run_length;
use crate::bfc::lemma_run_length_le;
use crate::bfc::spec_compile_tokens;
use crate::bfc::spec_compile_source;
use crate::error::BFVMError;
use crate::lexer::SourcePosition;
use crate::lexer::Token;
use crate::lexer::is_command_char;
use crate::lexer::lex_from;
use crate::lexer::lemma_lex_from_len;
use crate::lexer::spec_advance;
use crate::bfvm::DATA_SIZE;
use crate::bfvm::ExecStatus;
use crate::bfvm::MachineState;
use crate::bfvm::byte_add;
use crate::bfvm::byte_sub;
use crate::bfvm::initial_state;
use crate::bfvm::valid_code;
use crate::bfvm::vm_run;
use crate::bfvm::vm_step;

verus! {

/// How many `JumpIfZero` instructions a sequence holds.
pub open spec fn count_jz(code: Seq<OpCode>) -> nat
    decreases code.len(),
{
    if code.len() == 0 {
        0
    } else {
        count_jz(code.drop_last()) + (if code.last() matches OpCode::Jz(_) {
            1nat
        } else {
            0nat
        })
    }
}

/// How many unconditional `Jump` instructions a sequence holds.
pub open spec fn count_jmp(code: Seq<OpCode>) -> nat
    decreases code.len(),
{
    if code.len() == 0 {
        0
    } else {
        count_jmp(code.drop_last()) + (if code.last() matches OpCode::Jmp(_) {
            1nat
        } else {
            0nat
        })
    }
}

/// Appending one instruction adds one to the matching count and leaves the
/// other unchanged.
pub proof fn lemma_count_push(code: Seq<OpCode>, op: OpCode)
    ensures
        count_jz(code.push(op)) == count_jz(code) + (if op matches OpCode::Jz(_) {
            1nat
        } else {
            0nat
        }),
        count_jmp(code.push(op)) == count_jmp(code) + (if op matches OpCode::Jmp(_) {
            1nat
        } else {
            0nat
        }),
{
    assert(code.push(op).drop_last() =~= code);
    assert(code.push(op).last() == op);
}

/// Replacing an instruction with one of the same jump class changes
/// neither count.
pub proof fn lemma_count_update(code: Seq<OpCode>, i: int, op: OpCode)
    requires
        0 <= i < code.len(),
        (code[i] matches OpCode::Jz(_)) <==> (op matches OpCode::Jz(_)),
        (code[i] matches OpCode::Jmp(_)) <==> (op matches OpCode::Jmp(_)),
    ensures
        count_jz(code.update(i, op)) == count_jz(code),
        count_jmp(code.update(i, op)) == count_jmp(code),
    decreases code.len(),
{
    if i == code.len() - 1 {
        assert(code.update(i, op).drop_last() =~= code.drop_last());
        assert(code.update(i, op).last() == op);
    } else {
        assert(code.update(i, op).drop_last() =~= code.drop_last().update(i, op));
        assert(code.update(i, op).last() == code.last());
        lemma_count_update(code.drop_last(), i, op);
    }
}

/// Whether instruction index `i` is one of the unpatched open brackets on
/// the stack.
pub open spec fn in_stack(stack: Seq<(int, SourcePosition)>, i: int) -> bool {
    exists|k: int| 0 <= k < stack.len() && (#[trigger] stack[k]).0 == i
}

/// The invariant of the single compilation pass, over the instructions
/// emitted so far and the stack of pending open brackets:
///
/// * no `End` has been emitted yet;
/// * every `Jump` already points back at a `JumpIfZero` that has been
///   patched to point just past it;
/// * every `JumpIfZero` that is not a pending placeholder has been patched
///   to point just past its paired `Jump`;
/// * the stack names exactly placeholder positions (`Jz(0)`), in strictly
///   increasing order.
pub open spec fn partial_wf(code: Seq<OpCode>, stack: Seq<(int, SourcePosition)>) -> bool {
    &&& (forall|i: int| 0 <= i < code.len() ==> #[trigger] code[i] != OpCode::End)
    &&& (forall|j: int|
        0 <= j < code.len() ==> (#[trigger] code[j] matches OpCode::Jmp(o) ==> o < j && code[o as int]
            == OpCode::Jz((j + 1) as usize)))
    &&& (forall|i: int|
        0 <= i < code.len() ==> (#[trigger] code[i] matches OpCode::Jz(t) ==> (!in_stack(stack, i)
            ==> i + 1 < t <= code.len() && code[t - 1] == OpCode::Jmp(i as usize))))
    &&& (forall|k: int|
        0 <= k < stack.len() ==> 0 <= (#[trigger] stack[k]).0 < code.len() && code[stack[k].0]
            == OpCode::Jz(0))
    &&& (forall|k1: int, k2: int|
        0 <= k1 < k2 < stack.len() ==> (#[trigger] stack[k1]).0 < (#[trigger] stack[k2]).0)
}

/// A finished, well-formed instruction sequence: it ends with `End`, each
/// `JumpIfZero` targets the instruction just past its paired `Jump` (so
/// every `JumpIfZero` target points strictly forward past that `Jump`),
/// each `Jump` targets its paired `JumpIfZero`, and the two kinds of jump
/// are equal in number.
pub open spec fn code_wf(code: Seq<OpCode>) -> bool {
    &&& code.len() >= 1
    &&& code[code.len() - 1] == OpCode::End
    &&& (forall|i: int|
        0 <= i < code.len() ==> (#[trigger] code[i] matches OpCode::Jz(t) ==> i + 1 < t
            < code.len() && code[t - 1] == OpCode::Jmp(i as usize)))
    &&& (forall|j: int|
        0 <= j < code.len() ==> (#[trigger] code[j] matches OpCode::Jmp(o) ==> o < j && code[o as int]
            == OpCode::Jz((j + 1) as usize)))
    &&& count_jz(code) == count_jmp(code)
}

/// Emitting an instruction that is neither a jump nor `End` preserves the
/// compilation invariant.
proof fn lemma_partial_wf_push_plain(
    code: Seq<OpCode>,
    stack: Seq<(int, SourcePosition)>,
    op: OpCode,
)
    requires
        partial_wf(code, stack),
        op != OpCode::End,
        !(op matches OpCode::Jz(_)),
        !(op matches OpCode::Jmp(_)),
    ensures
        partial_wf(code.push(op), stack),
{
    let c2 = code.push(op);
    assert forall|i: int| 0 <= i < c2.len() implies #[trigger] c2[i] != OpCode::End by {
        if i < code.len() {
            assert(c2[i] == code[i]);
        }
    }
    assert forall|j: int|
        0 <= j < c2.len() implies (#[trigger] c2[j] matches OpCode::Jmp(o) ==> o < j && c2[o as int]
        == OpCode::Jz((j + 1) as usize)) by {
        if j < code.len() {
            assert(c2[j] == code[j]);
            match code[j] {
                OpCode::Jmp(o) => {
                    assert(c2[o as int] == code[o as int]);
                },
                _ => {},
            }
        }
    }
    assert forall|i: int|
        0 <= i < c2.len() implies (#[trigger] c2[i] matches OpCode::Jz(t) ==> (!in_stack(stack, i)
        ==> i + 1 < t <= c2.len() && c2[t - 1] == OpCode::Jmp(i as usize))) by {
        if i < code.len() {
            assert(c2[i] == code[i]);
            match code[i] {
                OpCode::Jz(t) => {
                    if !in_stack(stack, i) {
                        assert(c2[t - 1] == code[t - 1]);
                    }
                },
                _ => {},
            }
        }
    }
    assert forall|k: int|
        0 <= k < stack.len() implies 0 <= (#[trigger] stack[k]).0 < c2.len() && c2[stack[k].0]
        == OpCode::Jz(0) by {
        assert(c2[stack[k].0] == code[stack[k].0]);
    }
}

/// Emitting a `Jz(0)` placeholder and pushing its index onto the stack
/// preserves the compilation invariant.
proof fn lemma_partial_wf_push_jz(
    code: Seq<OpCode>,
    stack: Seq<(int, SourcePosition)>,
    p: SourcePosition,
)
    requires
        partial_wf(code, stack),
    ensures
        partial_wf(code.push(OpCode::Jz(0)), stack.push((code.len() as int, p))),
{
    let c2 = code.push(OpCode::Jz(0));
    let s2 = stack.push((code.len() as int, p));
    assert forall|i: int| 0 <= i < c2.len() implies #[trigger] c2[i] != OpCode::End by {
        if i < code.len() {
            assert(c2[i] == code[i]);
        }
    }
    assert forall|j: int|
        0 <= j < c2.len() implies (#[trigger] c2[j] matches OpCode::Jmp(o) ==> o < j && c2[o as int]
        == OpCode::Jz((j + 1) as usize)) by {
        if j < code.len() {
            assert(c2[j] == code[j]);
            match code[j] {
                OpCode::Jmp(o) => {
                    assert(c2[o as int] == code[o as int]);
                },
                _ => {},
            }
        }
    }
    assert forall|i: int|
        0 <= i < c2.len() implies (#[trigger] c2[i] matches OpCode::Jz(t) ==> (!in_stack(s2, i)
        ==> i + 1 < t <= c2.len() && c2[t - 1] == OpCode::Jmp(i as usize))) by {
        if i < code.len() {
            assert(c2[i] == code[i]);
            match code[i] {
                OpCode::Jz(t) => {
                    if !in_stack(s2, i) {
                        assert forall|k: int|
                            0 <= k < stack.len() implies (#[trigger] stack[k]).0 != i by {
                            assert(s2[k] == stack[k]);
                        }
                        assert(!in_stack(stack, i));
                        assert(c2[t - 1] == code[t - 1]);
                    }
                },
                _ => {},
            }
        } else {
            assert(s2[stack.len() as int].0 == i);
            assert(in_stack(s2, i));
        }
    }
    assert forall|k: int|
        0 <= k < s2.len() implies 0 <= (#[trigger] s2[k]).0 < c2.len() && c2[s2[k].0]
        == OpCode::Jz(0) by {
        if k < stack.len() {
            assert(s2[k] == stack[k]);
            assert(c2[stack[k].0] == code[stack[k].0]);
        } else {
            assert(s2[k] == (code.len() as int, p));
            assert(c2[code.len() as int] == OpCode::Jz(0));
        }
    }
    assert forall|k1: int, k2: int|
        0 <= k1 < k2 < s2.len() implies (#[trigger] s2[k1]).0 < (#[trigger] s2[k2]).0 by {
        assert(s2[k1] == stack[k1]);
        if k2 < stack.len() {
            assert(s2[k2] == stack[k2]);
        } else {
            assert(s2[k2] == (code.len() as int, p));
        }
    }
}

/// Resolving a closing bracket — patching the innermost placeholder to
/// point just past the `Jump` being emitted, emitting that `Jump`, and
/// popping the stack — preserves the compilation invariant.
proof fn lemma_partial_wf_patch(code: Seq<OpCode>, stack: Seq<(int, SourcePosition)>)
    requires
        partial_wf(code, stack),
        stack.len() >= 1,
        code.len() + 1 <= usize::MAX,
    ensures
        partial_wf(
            code.update(stack.last().0, OpCode::Jz((code.len() + 1) as usize)).push(
                OpCode::Jmp(stack.last().0 as usize),
            ),
            stack.drop_last(),
        ),
{
    let len = code.len() as int;
    let open = stack.last().0;
    let sd = stack.drop_last();
    let c2 = code.update(open, OpCode::Jz((len + 1) as usize)).push(
        OpCode::Jmp(open as usize),
    );
    assert(0 <= open < len);
    assert(code[open] == OpCode::Jz(0));
    assert(c2.len() == len + 1);
    assert(c2[open] == OpCode::Jz((len + 1) as usize));
    assert(c2[len] == OpCode::Jmp(open as usize));
    assert forall|i: int| 0 <= i < len && i != open implies c2[i] == code[i] by {}

    // Entries below the top are strictly smaller than the top, so none of
    // them is the patched index, and membership in the popped stack is
    // membership in the old stack at any index other than the top.
    assert forall|k: int| 0 <= k < sd.len() implies (#[trigger] sd[k]).0 < open by {
        assert(sd[k] == stack[k]);
        assert(stack[k].0 < stack[stack.len() - 1].0);
    }

    assert forall|i: int| 0 <= i < c2.len() implies #[trigger] c2[i] != OpCode::End by {
        if i < len && i != open {
            assert(c2[i] == code[i]);
        }
    }

    assert forall|j: int|
        0 <= j < c2.len() implies (#[trigger] c2[j] matches OpCode::Jmp(o) ==> o < j && c2[o as int]
        == OpCode::Jz((j + 1) as usize)) by {
        if j < len {
            if j != open {
                assert(c2[j] == code[j]);
                match code[j] {
                    OpCode::Jmp(o) => {
                        assert(code[o as int] == OpCode::Jz((j + 1) as usize));
                        assert(o as int != open);
                        assert(c2[o as int] == code[o as int]);
                    },
                    _ => {},
                }
            }
        } else {
            assert(c2[j] == OpCode::Jmp(open as usize));
            assert(c2[open] == OpCode::Jz((len + 1) as usize));
        }
    }

    assert forall|i: int|
        0 <= i < c2.len() implies (#[trigger] c2[i] matches OpCode::Jz(t) ==> (!in_stack(sd, i)
        ==> i + 1 < t <= c2.len() && c2[t - 1] == OpCode::Jmp(i as usize))) by {
        if i == open {
            assert(c2[i] matches OpCode::Jz(t) ==> t == (len + 1) as usize);
            assert(c2[len] == OpCode::Jmp(open as usize));
        } else if i < len {
            assert(c2[i] == code[i]);
            match code[i] {
                OpCode::Jz(t) => {
                    if !in_stack(sd, i) {
                        if in_stack(stack, i) {
                            // The witness cannot be the top (that is
                            // `open`), so it survives the pop,
                            // contradicting `!in_stack(sd, i)`.
                            let k = choose|k: int|
                                0 <= k < stack.len() && (#[trigger] stack[k]).0 == i;
                            assert(k < stack.len() - 1);
                            assert(sd[k] == stack[k]);
                            assert(in_stack(sd, i));
                            assert(false);
                        }
                        assert(i + 1 < t <= len);
                        assert(code[t - 1] == OpCode::Jmp(i as usize));
                        assert(t - 1 != open);
                        assert(c2[t - 1] == code[t - 1]);
                    }
                },
                _ => {},
            }
        }
    }

    assert forall|k: int|
        0 <= k < sd.len() implies 0 <= (#[trigger] sd[k]).0 < c2.len() && c2[sd[k].0]
        == OpCode::Jz(0) by {
        assert(sd[k] == stack[k]);
        assert(sd[k].0 != open);
        assert(c2[sd[k].0] == code[sd[k].0]);
    }

    assert forall|k1: int, k2: int|
        0 <= k1 < k2 < sd.len() implies (#[trigger] sd[k1]).0 < (#[trigger] sd[k2]).0 by {
        assert(sd[k1] == stack[k1]);
        assert(sd[k2] == stack[k2]);
    }
}

/// The compilation pass, started in any state satisfying its invariant,
/// returns well-formed code whenever it succeeds.
proof fn lemma_compile_loop_wf(
    toks: Seq<(Token, SourcePosition)>,
    code: Seq<OpCode>,
    stack: Seq<(int, SourcePosition)>,
    c: Seq<OpCode>,
)
    requires
        partial_wf(code, stack),
        count_jz(code) == count_jmp(code) + stack.len(),
        code.len() + toks.len() + 1 <= usize::MAX,
        compile_loop(toks, code, stack) == Ok::<Seq<OpCode>, BFVMError>(c),
    ensures
        code_wf(c),
    decreases toks.len(),
{
    if toks.len() == 0 {
        assert(stack.len() == 0);
        assert(c == code.push(OpCode::End));
        lemma_count_push(code, OpCode::End);
        assert(c[c.len() - 1] == OpCode::End);
        assert forall|i: int|
            0 <= i < c.len() implies (#[trigger] c[i] matches OpCode::Jz(t) ==> i + 1 < t
            < c.len() && c[t - 1] == OpCode::Jmp(i as usize)) by {
            if i < code.len() {
                assert(c[i] == code[i]);
                match code[i] {
                    OpCode::Jz(t) => {
                        assert(!in_stack(stack, i));
                        assert(c[t - 1] == code[t - 1]);
                    },
                    _ => {},
                }
            }
        }
        assert forall|j: int|
            0 <= j < c.len() implies (#[trigger] c[j] matches OpCode::Jmp(o) ==> o < j && c[o as int]
            == OpCode::Jz((j + 1) as usize)) by {
            if j < code.len() {
                assert(c[j] == code[j]);
                match code[j] {
                    OpCode::Jmp(o) => {
                        assert(c[o as int] == code[o as int]);
                    },
                    _ => {},
                }
            }
        }
    } else {
        let t = toks[0].0;
        let p = toks[0].1;
        match t {
            Token::Plus => {
                let n = run_length(toks, t);
                let op = OpCode::AddB((n % 256) as u8);
                lemma_run_length_le(toks, t);
                lemma_partial_wf_push_plain(code, stack, op);
                lemma_count_push(code, op);
                lemma_compile_loop_wf(toks.skip(n as int), code.push(op), stack, c);
            },
            Token::Minus => {
                let n = run_length(toks, t);
                let op = OpCode::SubB((n % 256) as u8);
                lemma_run_length_le(toks, t);
                lemma_partial_wf_push_plain(code, stack, op);
                lemma_count_push(code, op);
                lemma_compile_loop_wf(toks.skip(n as int), code.push(op), stack, c);
            },
            Token::ArrowRight => {
                let n = run_length(toks, t);
                let op = OpCode::AddP(n as usize);
                lemma_run_length_le(toks, t);
                lemma_partial_wf_push_plain(code, stack, op);
                lemma_count_push(code, op);
                lemma_compile_loop_wf(toks.skip(n as int), code.push(op), stack, c);
            },
            Token::ArrowLeft => {
                let n = run_length(toks, t);
                let op = OpCode::SubP(n as usize);
                lemma_run_length_le(toks, t);
                lemma_partial_wf_push_plain(code, stack, op);
                lemma_count_push(code, op);
                lemma_compile_loop_wf(toks.skip(n as int), code.push(op), stack, c);
            },
            Token::Dot => {
                lemma_partial_wf_push_plain(code, stack, OpCode::Write);
                lemma_count_push(code, OpCode::Write);
                lemma_compile_loop_wf(toks.skip(1), code.push(OpCode::Write), stack, c);
            },
            Token::Comma => {
                lemma_partial_wf_push_plain(code, stack, OpCode::Read);
                lemma_count_push(code, OpCode::Read);
                lemma_compile_loop_wf(toks.skip(1), code.push(OpCode::Read), stack, c);
            },
            Token::BracketLeft => {
                lemma_partial_wf_push_jz(code, stack, p);
                lemma_count_push(code, OpCode::Jz(0));
                lemma_compile_loop_wf(
                    toks.skip(1),
                    code.push(OpCode::Jz(0)),
                    stack.push((code.len() as int, p)),
                    c,
                );
            },
            Token::BracketRight => {
                assert(stack.len() >= 1);
                let open = stack.last().0;
                let c_mid = code.update(open, OpCode::Jz((code.len() + 1) as usize));
                lemma_partial_wf_patch(code, stack);
                lemma_count_update(code, open, OpCode::Jz((code.len() + 1) as usize));
                lemma_count_push(c_mid, OpCode::Jmp(open as usize));
                lemma_compile_loop_wf(
                    toks.skip(1),
                    c_mid.push(OpCode::Jmp(open as usize)),
                    stack.drop_last(),
                    c,
                );
            },
            Token::EndOfFile => {
                assert(false);
            },
        }
    }
}

/// Successful compilation of any token stream yields well-formed code.
pub proof fn lemma_compile_tokens_wf(toks: Seq<(Token, SourcePosition)>, c: Seq<OpCode>)
    requires
        toks.len() + 1 <= usize::MAX,
        spec_compile_tokens(toks) == Ok::<Seq<OpCode>, BFVMError>(c),
    ensures
        code_wf(c),
{
    lemma_compile_loop_wf(toks, Seq::empty(), Seq::empty(), c);
}

/// Successful compilation of any source text yields well-formed code.
pub proof fn lemma_compile_source_wf(s: Seq<char>, c: Seq<OpCode>)
    requires
        s.len() + 2 <= usize::MAX,
        spec_compile_source(s) == Ok::<Seq<OpCode>, BFVMError>(c),
    ensures
        code_wf(c),
{
    lemma_lex_from_len(s, SourcePosition::spec_begin());
    lemma_compile_tokens_wf(lex_from(s, SourcePosition::spec_begin()), c);
}

/// For every balanced program — one whose compilation succeeds — the
/// number of `JumpIfZero` instructions equals the number of `Jump`
/// instructions, and each `JumpIfZero` targets the instruction just past
/// its paired `Jump`, so its target points strictly forward past that
/// `Jump`.
pub proof fn lemma_jump_pairing(s: Seq<char>, c: Seq<OpCode>)
    requires
        s.len() + 2 <= usize::MAX,
        spec_compile_source(s) == Ok::<Seq<OpCode>, BFVMError>(c),
    ensures
        count_jz(c) == count_jmp(c),
        forall|i: int|
            0 <= i < c.len() ==> (#[trigger] c[i] matches OpCode::Jz(t) ==> i + 1 < t < c.len()
                && c[t - 1] == OpCode::Jmp(i as usize)),
        forall|j: int|
            0 <= j < c.len() ==> (#[trigger] c[j] matches OpCode::Jmp(o) ==> o < j && c[o as int]
                == OpCode::Jz((j + 1) as usize)),
{
    lemma_compile_source_wf(s, c);
}

/// A text without a single instruction character lexes to nothing.
pub proof fn lemma_lex_from_comments(s: Seq<char>, p: SourcePosition)
    requires
        forall|i: int| 0 <= i < s.len() ==> !is_command_char(#[trigger] s[i]),
    ensures
        lex_from(s, p).len() == 0,
    decreases s.len(),
{
    if s.len() > 0 {
        assert forall|i: int| 0 <= i < s.skip(1).len() implies !is_command_char(
            #[trigger] s.skip(1)[i],
        ) by {
            assert(s.skip(1)[i] == s[i + 1]);
        }
        lemma_lex_from_comments(s.skip(1), spec_advance(p, s[0]));
    }
}

/// Any program consisting solely of non-instruction characters compiles to
/// the single-instruction sequence holding only the `End` sentinel.
pub proof fn lemma_comments_compile_to_end(s: Seq<char>)
    requires
        forall|i: int| 0 <= i < s.len() ==> !is_command_char(#[trigger] s[i]),
    ensures
        spec_compile_source(s) == Ok::<Seq<OpCode>, BFVMError>(seq![OpCode::End]),
{
    lemma_lex_from_comments(s, SourcePosition::spec_begin());
    assert(lex_from(s, SourcePosition::spec_begin()) =~= Seq::<(Token, SourcePosition)>::empty());
    assert(Seq::<OpCode>::empty().push(OpCode::End) =~= seq![OpCode::End]);
}

/// A text of `+` characters lexes to as many `Plus` tokens.
pub proof fn lemma_lex_from_pluses(s: Seq<char>, p: SourcePosition)
    requires
        forall|i: int| 0 <= i < s.len() ==> #[trigger] s[i] == '+',
    ensures
        lex_from(s, p).len() == s.len(),
        forall|k: int| 0 <= k < s.len() ==> #[trigger] lex_from(s, p)[k].0 == Token::Plus,
    decreases s.len(),
{
    if s.len() > 0 {
        assert forall|i: int| 0 <= i < s.skip(1).len() implies #[trigger] s.skip(1)[i]
            == '+' by {
            assert(s.skip(1)[i] == s[i + 1]);
        }
        let p2 = spec_advance(p, s[0]);
        lemma_lex_from_pluses(s.skip(1), p2);
        assert forall|k: int| 0 <= k < s.len() implies #[trigger] lex_from(s, p)[k].0
            == Token::Plus by {
            if k > 0 {
                assert(lex_from(s, p)[k] == lex_from(s.skip(1), p2)[k - 1]);
            }
        }
    }
}

/// In a stream whose tokens are all equal to `t`, the leading run is the
/// whole stream.
pub proof fn lemma_run_length_full(toks: Seq<(Token, SourcePosition)>, t: Token)
    requires
        forall|k: int| 0 <= k < toks.len() ==> (#[trigger] toks[k]).0 == t,
    ensures
        run_length(toks, t) == toks.len(),
    decreases toks.len(),
{
    if toks.len() > 0 {
        assert forall|k: int| 0 <= k < toks.skip(1).len() implies (#[trigger] toks.skip(1)[k]).0
            == t by {
            assert(toks.skip(1)[k] == toks[k + 1]);
        }
        lemma_run_length_full(toks.skip(1), t);
    }
}

/// The effect of `n` single increments of a byte cell, each modulo 256.
pub open spec fn repeat_inc(cell: u8, n: nat) -> u8
    decreases n,
{
    if n == 0 {
        cell
    } else {
        repeat_inc(crate::bfvm::byte_add(cell, 1), (n - 1) as nat)
    }
}

/// `n` single increments of a cell amount to adding `n` modulo 256.
pub proof fn lemma_repeat_inc(cell: u8, n: nat)
    ensures
        repeat_inc(cell, n) == (((cell + n) % 256) as u8),
    decreases n,
{
    if n > 0 {
        let c1 = crate::bfvm::byte_add(cell, 1);
        vstd::arithmetic::div_mod::lemma_small_mod((cell + 1) as nat % 256, 256);
        lemma_repeat_inc(c1, (n - 1) as nat);
        vstd::arithmetic::div_mod::lemma_add_mod_noop(cell + 1, n - 1, 256);
        vstd::arithmetic::div_mod::lemma_add_mod_noop_right(
            (cell + 1) % 256,
            n - 1,
            256,
        );
        vstd::arithmetic::div_mod::lemma_mod_bound(n - 1, 256);
    }
}

/// Folding: a program of `n` consecutive `+` characters compiles to
/// exactly one `AddByte` (followed by the `End` sentinel) whose operand is
/// `n` modulo 256, and applying that one instruction to any cell has the
/// same effect as `n` unfolded single-increment instructions.
pub proof fn lemma_plus_run_folds(s: Seq<char>, cell: u8)
    requires
        s.len() >= 1,
        forall|i: int| 0 <= i < s.len() ==> #[trigger] s[i] == '+',
    ensures
        spec_compile_source(s) == Ok::<Seq<OpCode>, BFVMError>(
            seq![OpCode::AddB((s.len() % 256) as u8), OpCode::End],
        ),
        crate::bfvm::byte_add(cell, (s.len() % 256) as u8) == repeat_inc(cell, s.len()),
{
    let begin = SourcePosition::spec_begin();
    let toks = lex_from(s, begin);
    lemma_lex_from_pluses(s, begin);
    assert forall|k: int| 0 <= k < toks.len() implies (#[trigger] toks[k]).0 == Token::Plus by {}
    lemma_run_length_full(toks, Token::Plus);
    let n = toks.len();
    let op = OpCode::AddB((n % 256) as u8);
    assert(toks.skip(n as int) =~= Seq::<(Token, SourcePosition)>::empty());
    assert(compile_loop(toks, Seq::empty(), Seq::empty()) == compile_loop(
        toks.skip(n as int),
        Seq::<OpCode>::empty().push(op),
        Seq::empty(),
    ));
    assert(Seq::<OpCode>::empty().push(op).push(OpCode::End) =~= seq![op, OpCode::End]);
    lemma_repeat_inc(cell, s.len());
    vstd::arithmetic::div_mod::lemma_add_mod_noop_right(cell as int, s.len() as int, 256);
    vstd::arithmetic::div_mod::lemma_mod_bound(s.len() as int, 256);
}

/// What a program can observe and change apart from control flow: the
/// tape, the data pointer, the input cursor and the output.
pub ghost struct TapeState {
    /// The tape of byte cells.
    pub tape: Seq<u8>,
    /// The data pointer.
    pub dp: usize,
    /// How many input bytes have been consumed.
    pub inpos: nat,
    /// The bytes written so far.
    pub output: Seq<u8>,
}

/// A machine state with the instruction pointer forgotten.
pub open spec fn strip(m: MachineState) -> TapeState {
    TapeState { tape: m.tape, dp: m.dp, inpos: m.inpos, output: m.output }
}

/// The tape state before a program runs: an all-zero tape, the pointer at
/// zero, no input consumed and no output produced.
pub open spec fn initial_tape() -> TapeState {
    strip(crate::bfvm::initial_state())
}

/// The outcome of interpreting a token stream directly: the stream was
/// consumed, or a runtime error stopped it.
pub ghost enum NaiveResult {
    Done(TapeState),
    Stuck(BFVMError, TapeState),
}

/// A token stream without loop brackets (the lexer never emits the
/// end-of-input sentinel as a token either).
pub open spec fn loop_free(toks: Seq<(Token, SourcePosition)>) -> bool {
    forall|k: int|
        0 <= k < toks.len() ==> (#[trigger] toks[k]).0 != Token::BracketLeft && toks[k].0
            != Token::BracketRight && toks[k].0 != Token::EndOfFile
}

/// The naive, unfolded interpretation of a loop-free token stream: one
/// token at a time, each `+`/`-` changing the current cell by one modulo
/// 256, each `>`/`<` moving the pointer by one with an immediate bounds
/// check, `.` and `,` writing and reading one byte.  This is the reference
/// against which the folded, compiled execution is measured.  Loop
/// brackets are outside this interpreter's domain and are ignored.
pub open spec fn naive_run(toks: Seq<(Token, SourcePosition)>, input: Seq<u8>, s: TapeState) -> NaiveResult
    decreases toks.len(),
{
    if toks.len() == 0 {
        NaiveResult::Done(s)
    } else {
        match toks[0].0 {
            Token::Plus => naive_run(
                toks.skip(1),
                input,
                TapeState {
                    tape: s.tape.update(
                        s.dp as int,
                        crate::bfvm::byte_add(s.tape[s.dp as int], 1),
                    ),
                    ..s
                },
            ),
            Token::Minus => naive_run(
                toks.skip(1),
                input,
                TapeState {
                    tape: s.tape.update(
                        s.dp as int,
                        crate::bfvm::byte_sub(s.tape[s.dp as int], 1),
                    ),
                    ..s
                },
            ),
            Token::ArrowRight => {
                let nd = vstd::wrapping::usize_specs::wrapping_add(s.dp, 1);
                if nd < crate::bfvm::DATA_SIZE {
                    naive_run(toks.skip(1), input, TapeState { dp: nd, ..s })
                } else {
                    NaiveResult::Stuck(
                        BFVMError::DataPointerOutOfRange,
                        TapeState { dp: nd, ..s },
                    )
                }
            },
            Token::ArrowLeft => {
                let nd = vstd::wrapping::usize_specs::wrapping_sub(s.dp, 1);
                if nd < crate::bfvm::DATA_SIZE {
                    naive_run(toks.skip(1), input, TapeState { dp: nd, ..s })
                } else {
                    NaiveResult::Stuck(
                        BFVMError::DataPointerOutOfRange,
                        TapeState { dp: nd, ..s },
                    )
                }
            },
            Token::Dot => naive_run(
                toks.skip(1),
                input,
                TapeState { output: s.output.push(s.tape[s.dp as int]), ..s },
            ),
            Token::Comma => {
                if s.inpos < input.len() {
                    naive_run(
                        toks.skip(1),
                        input,
                        TapeState {
                            tape: s.tape.update(s.dp as int, input[s.inpos as int]),
                            inpos: s.inpos + 1,
                            ..s
                        },
                    )
                } else {
                    NaiveResult::Stuck(BFVMError::FailedToReadByte, s)
                }
            },
            _ => NaiveResult::Done(s),
        }
    }
}

/// The folded instructions a loop-free token stream compiles to, without
/// the trailing `End` sentinel.
pub open spec fn straight_body(toks: Seq<(Token, SourcePosition)>) -> Seq<OpCode>
    decreases toks.len(),
{
    if toks.len() == 0 {
        Seq::empty()
    } else {
        let t = toks[0].0;
        proof {
            lemma_run_length_le(toks, toks[0].0);
        }
        match t {
            Token::Plus => seq![OpCode::AddB((run_length(toks, t) % 256) as u8)]
                + straight_body(toks.skip(run_length(toks, t) as int)),
            Token::Minus => seq![OpCode::SubB((run_length(toks, t) % 256) as u8)]
                + straight_body(toks.skip(run_length(toks, t) as int)),
            Token::ArrowRight => seq![OpCode::AddP(run_length(toks, t) as usize)]
                + straight_body(toks.skip(run_length(toks, t) as int)),
            Token::ArrowLeft => seq![OpCode::SubP(run_length(toks, t) as usize)]
                + straight_body(toks.skip(run_length(toks, t) as int)),
            Token::Dot => seq![OpCode::Write] + straight_body(toks.skip(1)),
            Token::Comma => seq![OpCode::Read] + straight_body(toks.skip(1)),
            _ => Seq::empty(),
        }
    }
}

/// Dropping a prefix of a loop-free stream leaves it loop-free.
proof fn lemma_loop_free_skip(toks: Seq<(Token, SourcePosition)>, n: int)
    requires
        loop_free(toks),
        0 <= n <= toks.len(),
    ensures
        loop_free(toks.skip(n)),
{
    assert forall|k: int|
        0 <= k < toks.skip(n).len() implies (#[trigger] toks.skip(n)[k]).0 != Token::BracketLeft
        && toks.skip(n)[k].0 != Token::BracketRight && toks.skip(n)[k].0
        != Token::EndOfFile by {
        assert(toks.skip(n)[k] == toks[k + n]);
    }
}

/// Every token of the leading run equals the run's token.
proof fn lemma_run_prefix(toks: Seq<(Token, SourcePosition)>, t: Token)
    ensures
        forall|k: int| 0 <= k < run_length(toks, t) ==> (#[trigger] toks[k]).0 == t,
    decreases toks.len(),
{
    if toks.len() > 0 && toks[0].0 == t {
        lemma_run_length_le(toks, t);
        lemma_run_length_le(toks.skip(1), t);
        lemma_run_prefix(toks.skip(1), t);
        assert forall|k: int| 0 <= k < run_length(toks, t) implies (#[trigger] toks[k]).0
            == t by {
            if k > 0 {
                assert(toks.skip(1)[k - 1] == toks[k]);
            }
        }
    }
}

/// The straight-line code a loop-free stream compiles to: the instructions
/// already emitted, then the folded body, then the `End` sentinel; a
/// loop-free program never fails to compile.
proof fn lemma_compile_straight(toks: Seq<(Token, SourcePosition)>, code: Seq<OpCode>)
    requires
        loop_free(toks),
    ensures
        compile_loop(toks, code, Seq::empty()) == Ok::<Seq<OpCode>, BFVMError>(
            code + straight_body(toks) + seq![OpCode::End],
        ),
    decreases toks.len(),
{
    if toks.len() == 0 {
        assert(code + straight_body(toks) + seq![OpCode::End] =~= code.push(OpCode::End));
    } else {
        let t = toks[0].0;
        lemma_run_length_le(toks, t);
        match t {
            Token::Plus => {
                let n = run_length(toks, t) as int;
                let op = OpCode::AddB((run_length(toks, t) % 256) as u8);
                lemma_loop_free_skip(toks, n);
                lemma_compile_straight(toks.skip(n), code.push(op));
                assert(code.push(op) + straight_body(toks.skip(n)) + seq![OpCode::End] =~= code
                    + (seq![op] + straight_body(toks.skip(n))) + seq![OpCode::End]);
            },
            Token::Minus => {
                let n = run_length(toks, t) as int;
                let op = OpCode::SubB((run_length(toks, t) % 256) as u8);
                lemma_loop_free_skip(toks, n);
                lemma_compile_straight(toks.skip(n), code.push(op));
                assert(code.push(op) + straight_body(toks.skip(n)) + seq![OpCode::End] =~= code
                    + (seq![op] + straight_body(toks.skip(n))) + seq![OpCode::End]);
            },
            Token::ArrowRight => {
                let n = run_length(toks, t) as int;
                let op = OpCode::AddP(run_length(toks, t) as usize);
                lemma_loop_free_skip(toks, n);
                lemma_compile_straight(toks.skip(n), code.push(op));
                assert(code.push(op) + straight_body(toks.skip(n)) + seq![OpCode::End] =~= code
                    + (seq![op] + straight_body(toks.skip(n))) + seq![OpCode::End]);
            },
            Token::ArrowLeft => {
                let n = run_length(toks, t) as int;
                let op = OpCode::SubP(run_length(toks, t) as usize);
                lemma_loop_free_skip(toks, n);
                lemma_compile_straight(toks.skip(n), code.push(op));
                assert(code.push(op) + straight_body(toks.skip(n)) + seq![OpCode::End] =~= code
                    + (seq![op] + straight_body(toks.skip(n))) + seq![OpCode::End]);
            },
            Token::Dot => {
                lemma_loop_free_skip(toks, 1);
                lemma_compile_straight(toks.skip(1), code.push(OpCode::Write));
                assert(code.push(OpCode::Write) + straight_body(toks.skip(1)) + seq![OpCode::End]
                    =~= code + (seq![OpCode::Write] + straight_body(toks.skip(1)))
                    + seq![OpCode::End]);
            },
            Token::Comma => {
                lemma_loop_free_skip(toks, 1);
                lemma_compile_straight(toks.skip(1), code.push(OpCode::Read));
                assert(code.push(OpCode::Read) + straight_body(toks.skip(1)) + seq![OpCode::End]
                    =~= code + (seq![OpCode::Read] + straight_body(toks.skip(1)))
                    + seq![OpCode::End]);
            },
            _ => {
                assert(false);
            },
        }
    }
}

/// Naively interpreting a run of `n` `+` tokens adds `n` to the current
/// cell, modulo 256.
proof fn lemma_naive_plus_run(
    toks: Seq<(Token, SourcePosition)>,
    input: Seq<u8>,
    s: TapeState,
    n: nat,
)
    requires
        n <= toks.len(),
        forall|k: int| 0 <= k < n ==> (#[trigger] toks[k]).0 == Token::Plus,
        s.dp < s.tape.len(),
    ensures
        naive_run(toks, input, s) == naive_run(
            toks.skip(n as int),
            input,
            TapeState {
                tape: s.tape.update(s.dp as int, (((s.tape[s.dp as int] + n) % 256) as u8)),
                ..s
            },
        ),
    decreases n,
{
    let cell = s.tape[s.dp as int];
    if n == 0 {
        vstd::arithmetic::div_mod::lemma_small_mod(cell as nat, 256);
        assert(s.tape.update(s.dp as int, cell) =~= s.tape);
        assert(toks.skip(0) =~= toks);
    } else {
        let s1 = TapeState {
            tape: s.tape.update(s.dp as int, crate::bfvm::byte_add(cell, 1)),
            ..s
        };
        assert forall|k: int| 0 <= k < n - 1 implies (#[trigger] toks.skip(1)[k]).0
            == Token::Plus by {
            assert(toks.skip(1)[k] == toks[k + 1]);
        }
        lemma_naive_plus_run(toks.skip(1), input, s1, (n - 1) as nat);
        assert(toks.skip(1).skip(n - 1) =~= toks.skip(n as int));
        let c1 = s1.tape[s.dp as int];
        assert(c1 == crate::bfvm::byte_add(cell, 1));
        vstd::arithmetic::div_mod::lemma_small_mod((cell + 1) as nat % 256, 256);
        vstd::arithmetic::div_mod::lemma_add_mod_noop(cell + 1, n - 1, 256);
        vstd::arithmetic::div_mod::lemma_add_mod_noop_right((cell + 1) % 256, n - 1, 256);
        vstd::arithmetic::div_mod::lemma_mod_bound(n - 1, 256);
        assert((c1 + (n - 1)) % 256 == (cell + n) % 256);
        assert(s1.tape.update(s.dp as int, (((c1 + (n - 1)) % 256) as u8)) =~= s.tape.update(
            s.dp as int,
            (((cell + n) % 256) as u8),
        ));
    }
}

/// Naively interpreting a run of `n` `-` tokens subtracts `n` from the
/// current cell, modulo 256.
proof fn lemma_naive_minus_run(
    toks: Seq<(Token, SourcePosition)>,
    input: Seq<u8>,
    s: TapeState,
    n: nat,
)
    requires
        n <= toks.len(),
        forall|k: int| 0 <= k < n ==> (#[trigger] toks[k]).0 == Token::Minus,
        s.dp < s.tape.len(),
    ensures
        naive_run(toks, input, s) == naive_run(
            toks.skip(n as int),
            input,
            TapeState {
                tape: s.tape.update(s.dp as int, (((s.tape[s.dp as int] - n) % 256) as u8)),
                ..s
            },
        ),
    decreases n,
{
    let cell = s.tape[s.dp as int];
    if n == 0 {
        vstd::arithmetic::div_mod::lemma_small_mod(cell as nat, 256);
        assert(s.tape.update(s.dp as int, cell) =~= s.tape);
        assert(toks.skip(0) =~= toks);
    } else {
        let s1 = TapeState {
            tape: s.tape.update(s.dp as int, crate::bfvm::byte_sub(cell, 1)),
            ..s
        };
        assert forall|k: int| 0 <= k < n - 1 implies (#[trigger] toks.skip(1)[k]).0
            == Token::Minus by {
            assert(toks.skip(1)[k] == toks[k + 1]);
        }
        lemma_naive_minus_run(toks.skip(1), input, s1, (n - 1) as nat);
        assert(toks.skip(1).skip(n - 1) =~= toks.skip(n as int));
        let c1 = s1.tape[s.dp as int];
        assert(c1 == crate::bfvm::byte_sub(cell, 1));
        vstd::arithmetic::div_mod::lemma_mod_bound(cell - 1, 256);
        vstd::arithmetic::div_mod::lemma_small_mod(((cell - 1) % 256) as nat, 256);
        vstd::arithmetic::div_mod::lemma_sub_mod_noop(cell - 1, n - 1, 256);
        vstd::arithmetic::div_mod::lemma_sub_mod_noop_right((cell - 1) % 256, n - 1, 256);
        vstd::arithmetic::div_mod::lemma_mod_bound(n - 1, 256);
        assert((c1 - (n - 1)) % 256 == (cell - n) % 256);
        assert(s1.tape.update(s.dp as int, (((c1 - (n - 1)) % 256) as u8)) =~= s.tape.update(
            s.dp as int,
            (((cell - n) % 256) as u8),
        ));
    }
}

/// Naively interpreting a run of `n` `>` tokens either moves the pointer
/// `n` cells forward, or stops with an out-of-range error the moment it
/// crosses the end of the tape.
proof fn lemma_naive_right_run(
    toks: Seq<(Token, SourcePosition)>,
    input: Seq<u8>,
    s: TapeState,
    n: nat,
)
    requires
        n <= toks.len(),
        forall|k: int| 0 <= k < n ==> (#[trigger] toks[k]).0 == Token::ArrowRight,
        s.dp < crate::bfvm::DATA_SIZE,
        s.dp + n <= usize::MAX,
    ensures
        s.dp + n < crate::bfvm::DATA_SIZE ==> naive_run(toks, input, s) == naive_run(
            toks.skip(n as int),
            input,
            TapeState { dp: (s.dp + n) as usize, ..s },
        ),
        s.dp + n >= crate::bfvm::DATA_SIZE ==> naive_run(toks, input, s) == NaiveResult::Stuck(
            BFVMError::DataPointerOutOfRange,
            TapeState { dp: crate::bfvm::DATA_SIZE, ..s },
        ),
    decreases n,
{
    if n == 0 {
        assert(toks.skip(0) =~= toks);
    } else {
        assert forall|k: int| 0 <= k < n - 1 implies (#[trigger] toks.skip(1)[k]).0
            == Token::ArrowRight by {
            assert(toks.skip(1)[k] == toks[k + 1]);
        }
        let nd = vstd::wrapping::usize_specs::wrapping_add(s.dp, 1);
        assert(nd == s.dp + 1);
        if nd < crate::bfvm::DATA_SIZE {
            lemma_naive_right_run(toks.skip(1), input, TapeState { dp: nd, ..s }, (n - 1) as nat);
            assert(toks.skip(1).skip(n - 1) =~= toks.skip(n as int));
        }
    }
}

/// Naively interpreting a run of `n` `<` tokens either moves the pointer
/// `n` cells backward, or stops with an out-of-range error the moment it
/// steps below cell zero (where the move wraps around the machine word).
proof fn lemma_naive_left_run(
    toks: Seq<(Token, SourcePosition)>,
    input: Seq<u8>,
    s: TapeState,
    n: nat,
)
    requires
        n <= toks.len(),
        forall|k: int| 0 <= k < n ==> (#[trigger] toks[k]).0 == Token::ArrowLeft,
        s.dp < crate::bfvm::DATA_SIZE,
    ensures
        n <= s.dp ==> naive_run(toks, input, s) == naive_run(
            toks.skip(n as int),
            input,
            TapeState { dp: (s.dp - n) as usize, ..s },
        ),
        n > s.dp ==> naive_run(toks, input, s) == NaiveResult::Stuck(
            BFVMError::DataPointerOutOfRange,
            TapeState { dp: usize::MAX, ..s },
        ),
    decreases n,
{
    if n == 0 {
        assert(toks.skip(0) =~= toks);
    } else {
        assert forall|k: int| 0 <= k < n - 1 implies (#[trigger] toks.skip(1)[k]).0
            == Token::ArrowLeft by {
            assert(toks.skip(1)[k] == toks[k + 1]);
        }
        let nd = vstd::wrapping::usize_specs::wrapping_sub(s.dp, 1);
        if s.dp >= 1 {
            assert(nd == s.dp - 1);
            lemma_naive_left_run(toks.skip(1), input, TapeState { dp: nd, ..s }, (n - 1) as nat);
            assert(toks.skip(1).skip(n - 1) =~= toks.skip(n as int));
        } else {
            assert(nd == usize::MAX);
        }
    }
}

/// In straight-line code, the instruction at the cursor is the head of
/// the remaining body, and the code past it carries the rest of the body.
proof fn lemma_body_shift(c: Seq<OpCode>, ip: nat, op: OpCode, rest: Seq<OpCode>)
    requires
        ip + 1 + rest.len() + 1 == c.len(),
        c.subrange(ip as int, c.len() - 1) == seq![op] + rest,
    ensures
        c[ip as int] == op,
        c.subrange(ip as int + 1, c.len() - 1) == rest,
{
    assert(c[ip as int] == c.subrange(ip as int, c.len() - 1)[0]);
    assert(c.subrange(ip as int + 1, c.len() - 1) =~= rest) by {
        assert forall|i: int| 0 <= i < rest.len() implies c.subrange(
            ip as int + 1,
            c.len() - 1,
        )[i] == rest[i] by {
            assert(c.subrange(ip as int + 1, c.len() - 1)[i] == c[ip + 1 + i]);
            assert(c.subrange(ip as int, c.len() - 1)[i + 1] == c[ip + i + 1]);
            assert((seq![op] + rest)[i + 1] == rest[i]);
        }
    }
}

/// Executing the folded, compiled form of a loop-free token stream agrees
/// with interpreting the stream naively one token at a time: given enough
/// fuel it halts with the same tape, pointer, input cursor and output, or
/// fails with the same error having produced the same output.
#[verifier::rlimit(100)]
#[verifier::spinoff_prover]
proof fn lemma_vm_straight(
    c: Seq<OpCode>,
    toks: Seq<(Token, SourcePosition)>,
    input: Seq<u8>,
    m: MachineState,
    fuel: nat,
)
    requires
        loop_free(toks),
        m.tape.len() == DATA_SIZE,
        m.dp < DATA_SIZE,
        m.ip + straight_body(toks).len() + 1 == c.len(),
        c.subrange(m.ip as int, c.len() - 1) == straight_body(toks),
        c[c.len() - 1] == OpCode::End,
        toks.len() + DATA_SIZE <= usize::MAX,
        fuel >= toks.len() + 1,
    ensures
        match naive_run(toks, input, strip(m)) {
            NaiveResult::Done(tt) => vm_run(c, input, m, fuel) matches ExecStatus::Halted(h)
                && strip(h) == tt && h.ip == c.len() - 1,
            NaiveResult::Stuck(e, tt) => vm_run(c, input, m, fuel) matches ExecStatus::Failed(
                e2,
                h,
            ) && e2 == e && h.tape == tt.tape && h.output == tt.output && h.inpos == tt.inpos,
        },
    decreases toks.len(),
{
    let body = straight_body(toks);
    if toks.len() == 0 {
        assert(m.ip == c.len() - 1);
        assert(c[m.ip as int] == OpCode::End);
        assert(vm_step(c, input, m) == ExecStatus::Halted(m));
        assert(vm_run(c, input, m, fuel) == ExecStatus::Halted(m));
    } else {
        let t0 = toks[0].0;
        assert(t0 != Token::BracketLeft && t0 != Token::BracketRight && t0 != Token::EndOfFile);
        let cell = m.tape[m.dp as int];
        match t0 {
            Token::Plus => {
                let n = run_length(toks, t0);
                lemma_run_length_le(toks, t0);
                lemma_run_prefix(toks, t0);
                let rest = straight_body(toks.skip(n as int));
                let op = OpCode::AddB((n % 256) as u8);
                assert(body == seq![op] + rest);
                lemma_body_shift(c, m.ip, op, rest);
                let m1 = MachineState {
                    tape: m.tape.update(m.dp as int, byte_add(cell, (n % 256) as u8)),
                    ip: m.ip + 1,
                    ..m
                };
                assert(vm_step(c, input, m) == ExecStatus::Running(m1));
                vstd::arithmetic::div_mod::lemma_mod_bound(n as int, 256);
                vstd::arithmetic::div_mod::lemma_add_mod_noop_right(cell as int, n as int, 256);
                assert(byte_add(cell, (n % 256) as u8) == (((cell + n) % 256) as u8));
                lemma_naive_plus_run(toks, input, strip(m), n);
                assert(naive_run(toks, input, strip(m)) == naive_run(
                    toks.skip(n as int),
                    input,
                    strip(m1),
                ));
                lemma_loop_free_skip(toks, n as int);
                lemma_vm_straight(c, toks.skip(n as int), input, m1, (fuel - 1) as nat);
                assert(vm_run(c, input, m, fuel) == vm_run(c, input, m1, (fuel - 1) as nat));
            },
            Token::Minus => {
                let n = run_length(toks, t0);
                lemma_run_length_le(toks, t0);
                lemma_run_prefix(toks, t0);
                let rest = straight_body(toks.skip(n as int));
                let op = OpCode::SubB((n % 256) as u8);
                assert(body == seq![op] + rest);
                lemma_body_shift(c, m.ip, op, rest);
                let m1 = MachineState {
                    tape: m.tape.update(m.dp as int, byte_sub(cell, (n % 256) as u8)),
                    ip: m.ip + 1,
                    ..m
                };
                assert(vm_step(c, input, m) == ExecStatus::Running(m1));
                vstd::arithmetic::div_mod::lemma_mod_bound(n as int, 256);
                vstd::arithmetic::div_mod::lemma_sub_mod_noop_right(cell as int, n as int, 256);
                assert(byte_sub(cell, (n % 256) as u8) == (((cell - n) % 256) as u8));
                lemma_naive_minus_run(toks, input, strip(m), n);
                assert(naive_run(toks, input, strip(m)) == naive_run(
                    toks.skip(n as int),
                    input,
                    strip(m1),
                ));
                lemma_loop_free_skip(toks, n as int);
                lemma_vm_straight(c, toks.skip(n as int), input, m1, (fuel - 1) as nat);
                assert(vm_run(c, input, m, fuel) == vm_run(c, input, m1, (fuel - 1) as nat));
            },
            Token::ArrowRight => {
                let n = run_length(toks, t0);
                lemma_run_length_le(toks, t0);
                lemma_run_prefix(toks, t0);
                let rest = straight_body(toks.skip(n as int));
                let op = OpCode::AddP(n as usize);
                assert(body == seq![op] + rest);
                lemma_body_shift(c, m.ip, op, rest);
                let nd = vstd::wrapping::usize_specs::wrapping_add(m.dp, n as usize);
                assert(nd == m.dp + n);
                lemma_naive_right_run(toks, input, strip(m), n);
                if nd < DATA_SIZE {
                    let m1 = MachineState { dp: nd, ip: m.ip + 1, ..m };
                    assert(vm_step(c, input, m) == ExecStatus::Running(m1));
                    assert(naive_run(toks, input, strip(m)) == naive_run(
                        toks.skip(n as int),
                        input,
                        strip(m1),
                    ));
                    lemma_loop_free_skip(toks, n as int);
                    lemma_vm_straight(c, toks.skip(n as int), input, m1, (fuel - 1) as nat);
                    assert(vm_run(c, input, m, fuel) == vm_run(
                        c,
                        input,
                        m1,
                        (fuel - 1) as nat,
                    ));
                } else {
                    assert(vm_step(c, input, m) == ExecStatus::Failed(
                        BFVMError::DataPointerOutOfRange,
                        MachineState { dp: nd, ..m },
                    ));
                    assert(vm_run(c, input, m, fuel) == ExecStatus::Failed(
                        BFVMError::DataPointerOutOfRange,
                        MachineState { dp: nd, ..m },
                    ));
                }
            },
            Token::ArrowLeft => {
                let n = run_length(toks, t0);
                lemma_run_length_le(toks, t0);
                lemma_run_prefix(toks, t0);
                let rest = straight_body(toks.skip(n as int));
                let op = OpCode::SubP(n as usize);
                assert(body == seq![op] + rest);
                lemma_body_shift(c, m.ip, op, rest);
                let nd = vstd::wrapping::usize_specs::wrapping_sub(m.dp, n as usize);
                lemma_naive_left_run(toks, input, strip(m), n);
                if n <= m.dp {
                    assert(nd == m.dp - n);
                    let m1 = MachineState { dp: nd, ip: m.ip + 1, ..m };
                    assert(vm_step(c, input, m) == ExecStatus::Running(m1));
                    assert(naive_run(toks, input, strip(m)) == naive_run(
                        toks.skip(n as int),
                        input,
                        strip(m1),
                    ));
                    lemma_loop_free_skip(toks, n as int);
                    lemma_vm_straight(c, toks.skip(n as int), input, m1, (fuel - 1) as nat);
                    assert(vm_run(c, input, m, fuel) == vm_run(
                        c,
                        input,
                        m1,
                        (fuel - 1) as nat,
                    ));
                } else {
                    assert(nd == m.dp - n + usize::MAX + 1);
                    assert(nd >= DATA_SIZE);
                    assert(vm_step(c, input, m) == ExecStatus::Failed(
                        BFVMError::DataPointerOutOfRange,
                        MachineState { dp: nd, ..m },
                    ));
                    assert(vm_run(c, input, m, fuel) == ExecStatus::Failed(
                        BFVMError::DataPointerOutOfRange,
                        MachineState { dp: nd, ..m },
                    ));
                }
            },
            Token::Dot => {
                let rest = straight_body(toks.skip(1));
                assert(body == seq![OpCode::Write] + rest);
                lemma_body_shift(c, m.ip, OpCode::Write, rest);
                let m1 = MachineState { output: m.output.push(cell), ip: m.ip + 1, ..m };
                assert(vm_step(c, input, m) == ExecStatus::Running(m1));
                assert(naive_run(toks, input, strip(m)) == naive_run(
                    toks.skip(1),
                    input,
                    strip(m1),
                ));
                lemma_loop_free_skip(toks, 1);
                lemma_vm_straight(c, toks.skip(1), input, m1, (fuel - 1) as nat);
                assert(vm_run(c, input, m, fuel) == vm_run(c, input, m1, (fuel - 1) as nat));
            },
            Token::Comma => {
                let rest = straight_body(toks.skip(1));
                assert(body == seq![OpCode::Read] + rest);
                lemma_body_shift(c, m.ip, OpCode::Read, rest);
                if m.inpos < input.len() {
                    let m1 = MachineState {
                        tape: m.tape.update(m.dp as int, input[m.inpos as int]),
                        inpos: m.inpos + 1,
                        ip: m.ip + 1,
                        ..m
                    };
                    assert(vm_step(c, input, m) == ExecStatus::Running(m1));
                    assert(naive_run(toks, input, strip(m)) == naive_run(
                        toks.skip(1),
                        input,
                        strip(m1),
                    ));
                    lemma_loop_free_skip(toks, 1);
                    lemma_vm_straight(c, toks.skip(1), input, m1, (fuel - 1) as nat);
                    assert(vm_run(c, input, m, fuel) == vm_run(
                        c,
                        input,
                        m1,
                        (fuel - 1) as nat,
                    ));
                } else {
                    assert(vm_step(c, input, m) == ExecStatus::Failed(
                        BFVMError::FailedToReadByte,
                        m,
                    ));
                    assert(vm_run(c, input, m, fuel) == ExecStatus::Failed(
                        BFVMError::FailedToReadByte,
                        m,
                    ));
                }
            },
            _ => {
                assert(false);
            },
        }
    }
}

/// Lexing a source without brackets yields a stream without brackets.
proof fn lemma_lex_from_no_brackets(s: Seq<char>, p: SourcePosition)
    requires
        forall|i: int| 0 <= i < s.len() ==> #[trigger] s[i] != '[' && s[i] != ']',
    ensures
        loop_free(lex_from(s, p)),
    decreases s.len(),
{
    crate::lexer::lemma_lex_from_no_eof(s, p);
    if s.len() > 0 {
        assert forall|i: int| 0 <= i < s.skip(1).len() implies #[trigger] s.skip(1)[i] != '['
            && s.skip(1)[i] != ']' by {
            assert(s.skip(1)[i] == s[i + 1]);
        }
        lemma_lex_from_no_brackets(s.skip(1), spec_advance(p, s[0]));
        let p2 = spec_advance(p, s[0]);
        if is_command_char(s[0]) {
            assert forall|k: int|
                0 <= k < lex_from(s, p).len() implies (#[trigger] lex_from(s, p)[k]).0
                != Token::BracketLeft && lex_from(s, p)[k].0 != Token::BracketRight && lex_from(
                s,
                p,
            )[k].0 != Token::EndOfFile by {
                if k > 0 {
                    assert(lex_from(s, p)[k] == lex_from(s.skip(1), p2)[k - 1]);
                }
            }
        }
    }
}

/// Round trip for programs without loops: compiling such a program always
/// succeeds, and given fuel to cover its tokens, executing the compiled,
/// run-folded form produces byte-identical output to the naive unfolded
/// interpretation of the same token stream — and the same tape, pointer
/// and input cursor on a normal halt, or the same error otherwise.  (The
/// lexer drops comment characters, so comments affect neither side.)
pub proof fn lemma_loop_free_round_trip(s: Seq<char>, input: Seq<u8>, fuel: nat)
    requires
        forall|i: int| 0 <= i < s.len() ==> #[trigger] s[i] != '[' && s[i] != ']',
        s.len() + DATA_SIZE <= usize::MAX,
        fuel >= s.len() + 1,
    ensures
        spec_compile_source(s) matches Ok(c) && (match naive_run(
            lex_from(s, SourcePosition::spec_begin()),
            input,
            initial_tape(),
        ) {
            NaiveResult::Done(tt) => vm_run(c, input, initial_state(), fuel)
                matches ExecStatus::Halted(h) && strip(h) == tt,
            NaiveResult::Stuck(e, tt) => vm_run(c, input, initial_state(), fuel)
                matches ExecStatus::Failed(e2, h) && e2 == e && h.output == tt.output,
        }),
{
    let begin = SourcePosition::spec_begin();
    let toks = lex_from(s, begin);
    lemma_lex_from_len(s, begin);
    lemma_lex_from_no_brackets(s, begin);
    lemma_compile_straight(toks, Seq::empty());
    let c = Seq::<OpCode>::empty() + straight_body(toks) + seq![OpCode::End];
    assert(spec_compile_source(s) == Ok::<Seq<OpCode>, BFVMError>(c));
    let m0 = initial_state();
    assert(c.subrange(0, c.len() - 1) =~= straight_body(toks));
    assert(c[c.len() - 1] == OpCode::End);
    assert(strip(m0) == initial_tape());
    lemma_vm_straight(c, toks, input, m0, fuel);
}

/// Well-formed code is safe for the virtual machine: it ends with `End`
/// and every jump target lies inside the sequence.
pub proof fn lemma_code_wf_valid(c: Seq<OpCode>)
    requires
        code_wf(c),
    ensures
        valid_code(c),
{
    assert forall|i: int|
        0 <= i < c.len() implies {
        &&& (#[trigger] c[i] matches OpCode::Jz(t) ==> t < c.len())
        &&& (c[i] matches OpCode::Jmp(t) ==> t < c.len())
    } by {
        match c[i] {
            OpCode::Jz(t) => {
                assert(i + 1 < t < c.len());
            },
            OpCode::Jmp(t) => {
                assert(t < i);
            },
            _ => {},
        }
    }
}

} // verus!
