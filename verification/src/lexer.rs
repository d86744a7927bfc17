//! Lexical analysis for Brainfuck source text.
//!
//! A program is a stream of the eight instruction characters
//! `+ - < > . , [ ]`; every other character is a comment and produces no
//! token.  The lexer walks the source one character at a time, tracking a
//! line/column position for diagnostics, and hands the compiler one token
//! per instruction character.

use vstd::prelude::*;
use vstd::string::StrSliceExecFns;
use vstd::string::StringExecFns;

verus! {

/// The kinds of token found in a Brainfuck source file: one per instruction
/// character, plus an end-of-input sentinel.
#[derive(PartialEq, Eq, Structural, Clone, Copy, Debug)]
pub enum Token {
    Plus,
    Minus,
    ArrowLeft,
    ArrowRight,
    Dot,
    Comma,
    BracketLeft,
    BracketRight,
    EndOfFile,
}

/// Whether `c` is one of the eight Brainfuck instruction characters.
pub open spec fn is_command_char(c: char) -> bool {
    c == '+' || c == '-' || c == '<' || c == '>' || c == '.' || c == ',' || c == '[' || c == ']'
}

/// The token produced by an instruction character.  Characters that are not
/// instructions are comments and are never mapped to a token; for them this
/// function is meaningless and returns the sentinel.
pub open spec fn spec_token_of(c: char) -> Token {
    if c == '+' {
        Token::Plus
    } else if c == '-' {
        Token::Minus
    } else if c == '<' {
        Token::ArrowLeft
    } else if c == '>' {
        Token::ArrowRight
    } else if c == '.' {
        Token::Dot
    } else if c == ',' {
        Token::Comma
    } else if c == '[' {
        Token::BracketLeft
    } else if c == ']' {
        Token::BracketRight
    } else {
        Token::EndOfFile
    }
}

/// Checks whether `ch` is a valid Brainfuck command character.
pub fn is_bf_command(ch: char) -> (r: bool)
    ensures
        r == is_command_char(ch),
{
    ch == '+' || ch == '-' || ch == '<' || ch == '>' || ch == '.' || ch == ',' || ch == '['
        || ch == ']'
}

impl Token {
    /// A printable name for the lexeme this token stands for, used in
    /// diagnostic messages.
    pub fn lexeme(&self) -> (r: &'static str)
        ensures
            r@ == self.spec_lexeme(),
    {
        match self {
            Token::Plus => "'+'",
            Token::Minus => "'-'",
            Token::ArrowLeft => "'<'",
            Token::ArrowRight => "'>'",
            Token::Dot => "'.'",
            Token::Comma => "','",
            Token::BracketLeft => "'['",
            Token::BracketRight => "']'",
            Token::EndOfFile => "end-of-file",
        }
    }

    /// The characters of the printable name returned by [`Token::lexeme`].
    pub open spec fn spec_lexeme(self) -> Seq<char> {
        match self {
            Token::Plus => "'+'"@,
            Token::Minus => "'-'"@,
            Token::ArrowLeft => "'<'"@,
            Token::ArrowRight => "'>'"@,
            Token::Dot => "'.'"@,
            Token::Comma => "','"@,
            Token::BracketLeft => "'['"@,
            Token::BracketRight => "']'"@,
            Token::EndOfFile => "end-of-file"@,
        }
    }
}

/// A line/column position in the source text, used only for diagnostics.
/// Lines are numbered from 1; the column counts characters on the current
/// line and names the most recently consumed character.
#[derive(PartialEq, Eq, Structural, Clone, Copy, Debug)]
pub struct SourcePosition {
    /// The current line in the source text.
    pub line: usize,
    /// The current column in the source text.
    pub column: usize,
}

impl SourcePosition {
    /// The position before any character of the source has been consumed.
    pub open spec fn spec_begin() -> SourcePosition {
        SourcePosition { line: 1, column: 0 }
    }

    /// Creates the position at the very start of the source text.
    pub fn begin() -> (p: SourcePosition)
        ensures
            p == SourcePosition::spec_begin(),
    {
        SourcePosition { line: 1, column: 0 }
    }

    /// Advances to the next column of the current line.
    pub fn next_column(&mut self)
        requires
            old(self).column < usize::MAX,
        ensures
            final(self).line == old(self).line,
            final(self).column == old(self).column + 1,
    {
        self.column = self.column + 1;
    }

    /// Advances to the first column of the next line.
    pub fn next_line(&mut self)
        requires
            old(self).line < usize::MAX,
        ensures
            final(self).line == old(self).line + 1,
            final(self).column == 1,
    {
        self.line = self.line + 1;
        self.column = 1;
    }
}

impl Default for SourcePosition {
    /// The position at the start of the source text.
    fn default() -> (p: Self)
        ensures
            p == SourcePosition::spec_begin(),
    {
        SourcePosition::begin()
    }
}

/// The position reached after consuming one character `c` at position `p`:
/// a newline starts the next line, any other character moves one column.
pub open spec fn spec_advance(p: SourcePosition, c: char) -> SourcePosition {
    if c == '\n' {
        SourcePosition { line: (p.line + 1) as usize, column: 1 }
    } else {
        SourcePosition { line: p.line, column: (p.column + 1) as usize }
    }
}

/// The position reached after consuming all characters of `s`, starting
/// from position `p`.
pub open spec fn spec_pos_after(s: Seq<char>, p: SourcePosition) -> SourcePosition
    decreases s.len(),
{
    if s.len() == 0 {
        p
    } else {
        spec_pos_after(s.skip(1), spec_advance(p, s[0]))
    }
}

/// Consuming the characters of `s` and then one more character `c` reaches
/// the same position as advancing once from the position after `s`.
pub proof fn lemma_pos_after_snoc(s: Seq<char>, p: SourcePosition, c: char)
    ensures
        spec_pos_after(s.push(c), p) == spec_advance(spec_pos_after(s, p), c),
    decreases s.len(),
{
    if s.len() == 0 {
        assert(s.push(c).skip(1) =~= Seq::<char>::empty());
        assert(s.push(c)[0] == c);
        assert(spec_pos_after(s.push(c), p) == spec_pos_after(Seq::<char>::empty(), spec_advance(p, c)));
        assert(spec_pos_after(Seq::<char>::empty(), spec_advance(p, c)) == spec_advance(p, c));
        assert(spec_pos_after(s, p) == p);
    } else {
        assert(s.push(c).skip(1) =~= s.skip(1).push(c));
        assert(s.push(c)[0] == s[0]);
        lemma_pos_after_snoc(s.skip(1), spec_advance(p, s[0]), c);
    }
}

/// Consuming `s` moves the line at most `s.len()` forward and the column at
/// most `s.len()` past where it started, so neither coordinate can overflow
/// as long as the source length stays clear of `usize::MAX`.
pub proof fn lemma_pos_after_bounds(s: Seq<char>, p: SourcePosition)
    requires
        p.line + s.len() <= usize::MAX,
        p.column + s.len() <= usize::MAX,
    ensures
        spec_pos_after(s, p).line <= p.line + s.len(),
        spec_pos_after(s, p).column <= p.column + s.len(),
    decreases s.len(),
{
    if s.len() > 0 {
        lemma_pos_after_bounds(s.skip(1), spec_advance(p, s[0]));
    }
}

/// The token stream produced by lexing the characters of `s` starting at
/// position `p`: each instruction character yields its token, paired with
/// the position of that character; comments yield nothing.
pub open spec fn lex_from(s: Seq<char>, p: SourcePosition) -> Seq<(Token, SourcePosition)>
    decreases s.len(),
{
    if s.len() == 0 {
        Seq::empty()
    } else {
        let p2 = spec_advance(p, s[0]);
        if is_command_char(s[0]) {
            seq![(spec_token_of(s[0]), p2)] + lex_from(s.skip(1), p2)
        } else {
            lex_from(s.skip(1), p2)
        }
    }
}

/// Lexing never yields more tokens than there are characters.
pub proof fn lemma_lex_from_len(s: Seq<char>, p: SourcePosition)
    ensures
        lex_from(s, p).len() <= s.len(),
    decreases s.len(),
{
    if s.len() > 0 {
        lemma_lex_from_len(s.skip(1), spec_advance(p, s[0]));
    }
}

/// No token of a lexed stream is the end-of-input sentinel, and every
/// token's position is reachable in the source.
pub proof fn lemma_lex_from_no_eof(s: Seq<char>, p: SourcePosition)
    ensures
        forall|k: int|
            0 <= k < lex_from(s, p).len() ==> #[trigger] lex_from(s, p)[k].0 != Token::EndOfFile,
    decreases s.len(),
{
    if s.len() > 0 {
        lemma_lex_from_no_eof(s.skip(1), spec_advance(p, s[0]));
    }
}

/// The lexical analyzer feeding the Brainfuck compiler: it owns the source
/// text and yields one token per instruction character, skipping comments
/// and tracking the line/column position of the character it last consumed.
pub struct Lexer {
    /// The source text being lexed.
    pub source: String,
    /// The index of the next character of `source` to consume.
    pub curr: usize,
    /// The position of the most recently consumed character.
    pub position: SourcePosition,
}

impl Lexer {
    /// The lexer's cursor stays within the source, the tracked position is
    /// the one reached by consuming everything before the cursor, and the
    /// source is short enough that line and column arithmetic cannot
    /// overflow.
    pub open spec fn wf(self) -> bool {
        &&& self.curr <= self.source@.len()
        &&& self.source@.len() + 2 <= usize::MAX
        &&& self.position == spec_pos_after(
            self.source@.take(self.curr as int),
            SourcePosition::spec_begin(),
        )
    }

    /// The tokens not yet handed out, each with its source position.
    pub open spec fn remaining(self) -> Seq<(Token, SourcePosition)> {
        lex_from(self.source@.skip(self.curr as int), self.position)
    }

    /// Creates a lexer over the given source text, positioned at its start.
    pub fn from_source(source: &str) -> (l: Lexer)
        requires
            source@.len() + 2 <= usize::MAX,
        ensures
            l.wf(),
            l.source@ == source@,
            l.curr == 0,
            l.position == SourcePosition::spec_begin(),
            l.remaining() == lex_from(source@, SourcePosition::spec_begin()),
    {
        let l = Lexer { source: String::from_str(source), curr: 0, position: SourcePosition::begin() };
        proof {
            assert(l.source@.take(0) =~= Seq::<char>::empty());
            assert(l.source@.skip(0) =~= source@);
        }
        l
    }

    /// Consumes and returns the next character of the source, advancing the
    /// diagnostic position, or returns `None` once the source is exhausted.
    fn next_character(&mut self) -> (c: Option<char>)
        requires
            old(self).wf(),
        ensures
            final(self).wf(),
            final(self).source@ == old(self).source@,
            match c {
                Option::None => {
                    &&& final(self).curr == old(self).curr
                    &&& final(self).position == old(self).position
                    &&& old(self).curr == old(self).source@.len()
                },
                Option::Some(ch) => {
                    &&& old(self).curr < old(self).source@.len()
                    &&& ch == old(self).source@[old(self).curr as int]
                    &&& final(self).curr == old(self).curr + 1
                    &&& final(self).position == spec_advance(old(self).position, ch)
                },
            },
    {
        if self.curr >= self.source.as_str().unicode_len() {
            return None;
        }
        proof {
            lemma_pos_after_bounds(
                self.source@.take(self.curr as int),
                SourcePosition::spec_begin(),
            );
        }
        let ch: char = self.source.as_str().get_char(self.curr);
        self.curr = self.curr + 1;
        if ch == '\n' {
            self.position.next_line();
        } else {
            self.position.next_column();
        }
        proof {
            let s = self.source@;
            let prev = (self.curr - 1) as int;
            assert(s.take(self.curr as int) =~= s.take(prev).push(s[prev]));
            lemma_pos_after_snoc(s.take(prev), SourcePosition::spec_begin(), s[prev]);
        }
        Some(ch)
    }

    /// Returns the next token of the source, skipping comment characters.
    /// Once the source is exhausted it returns `EndOfFile`, and keeps doing
    /// so on every later call.
    pub fn next_token(&mut self) -> (t: Token)
        requires
            old(self).wf(),
        ensures
            final(self).wf(),
            final(self).source@ == old(self).source@,
            old(self).remaining().len() == 0 ==> {
                &&& t == Token::EndOfFile
                &&& final(self).remaining().len() == 0
            },
            old(self).remaining().len() > 0 ==> {
                &&& t == old(self).remaining()[0].0
                &&& t != Token::EndOfFile
                &&& final(self).position == old(self).remaining()[0].1
                &&& final(self).remaining() == old(self).remaining().skip(1)
            },
    {
        loop
            invariant
                self.wf(),
                self.source@ == old(self).source@,
                self.remaining() == old(self).remaining(),
            decreases self.source@.len() - self.curr,
        {
            let ghost pre: Lexer = *self;
            let c = self.next_character();
            match c {
                None => {
                    proof {
                        assert(pre.source@.skip(pre.curr as int) =~= Seq::<char>::empty());
                    }
                    return Token::EndOfFile;
                },
                Some(ch) => {
                    proof {
                        let s = pre.source@;
                        let i = pre.curr as int;
                        assert(s.skip(i).skip(1) =~= s.skip(i + 1));
                        assert(s.skip(i)[0] == s[i]);
                    }
                    if is_bf_command(ch) {
                        let t = token_of_char(ch);
                        return t;
                    }
                },
            }
        }
    }

    /// The position of the most recently consumed character.
    pub fn position(&self) -> (p: SourcePosition)
        ensures
            p == self.position,
    {
        self.position
    }

    /// The position of the most recently consumed character.
    pub fn current_position(&self) -> (p: SourcePosition)
        ensures
            p == self.position,
    {
        self.position
    }
}

/// Maps an instruction character to its token.  Must only be called on
/// command characters.
fn token_of_char(ch: char) -> (t: Token)
    requires
        is_command_char(ch),
    ensures
        t == spec_token_of(ch),
{
    match ch {
        '+' => Token::Plus,
        '-' => Token::Minus,
        '<' => Token::ArrowLeft,
        '>' => Token::ArrowRight,
        '.' => Token::Dot,
        ',' => Token::Comma,
        '[' => Token::BracketLeft,
        _ => Token::BracketRight,
    }
}

/// The token stream of `s` with the positions forgotten: each instruction
/// character yields its token, comments yield nothing.
pub open spec fn tokens_of(s: Seq<char>) -> Seq<Token>
    decreases s.len(),
{
    if s.len() == 0 {
        Seq::empty()
    } else if is_command_char(s[0]) {
        seq![spec_token_of(s[0])] + tokens_of(s.skip(1))
    } else {
        tokens_of(s.skip(1))
    }
}

/// An earlier, position-free form of the lexer: it scans the source text
/// and yields tokens, but keeps no line/column information.
pub struct LexicalAnalyzer {
    /// The source text being lexed.
    pub content: String,
    /// The index of the next character of `content` to consume.
    pub curr: usize,
}

impl LexicalAnalyzer {
    /// The cursor stays within the source text.
    pub open spec fn wf(self) -> bool {
        self.curr <= self.content@.len()
    }

    /// The tokens not yet handed out.
    pub open spec fn remaining(self) -> Seq<Token> {
        tokens_of(self.content@.skip(self.curr as int))
    }

    /// Creates a lexical analyzer over the given source text.
    pub fn new(content: &str) -> (l: LexicalAnalyzer)
        ensures
            l.wf(),
            l.content@ == content@,
            l.curr == 0,
            l.remaining() == tokens_of(content@),
    {
        let l = LexicalAnalyzer { content: String::from_str(content), curr: 0 };
        proof {
            assert(l.content@.skip(0) =~= content@);
        }
        l
    }

    /// Returns the next token of the source, skipping comment characters,
    /// or `EndOfFile` once the source is exhausted.
    pub fn get_token(&mut self) -> (t: Token)
        requires
            old(self).wf(),
        ensures
            final(self).wf(),
            final(self).content@ == old(self).content@,
            old(self).remaining().len() == 0 ==> {
                &&& t == Token::EndOfFile
                &&& final(self).remaining().len() == 0
            },
            old(self).remaining().len() > 0 ==> {
                &&& t == old(self).remaining()[0]
                &&& t != Token::EndOfFile
                &&& final(self).remaining() == old(self).remaining().skip(1)
            },
    {
        loop
            invariant
                self.wf(),
                self.content@ == old(self).content@,
                self.remaining() == old(self).remaining(),
            decreases self.content@.len() - self.curr,
        {
            if self.curr >= self.content.as_str().unicode_len() {
                proof {
                    assert(self.content@.skip(self.curr as int) =~= Seq::<char>::empty());
                }
                return Token::EndOfFile;
            }
            let ch: char = self.content.as_str().get_char(self.curr);
            self.curr = self.curr + 1;
            proof {
                let s = self.content@;
                let i = (self.curr - 1) as int;
                assert(s.skip(i).skip(1) =~= s.skip(i + 1));
                assert(s.skip(i)[0] == s[i]);
            }
            if self.is_instruction(ch) {
                let t = token_of_char(ch);
                return t;
            }
        }
    }

    /// Checks whether `ch` is a valid Brainfuck instruction character.
    fn is_instruction(&self, ch: char) -> (r: bool)
        ensures
            r == is_command_char(ch),
    {
        is_bf_command(ch)
    }
}

} // verus!
