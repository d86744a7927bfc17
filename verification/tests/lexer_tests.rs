use bfvm::lexer::Lexer;
use bfvm::lexer::LexicalAnalyzer;
use bfvm::lexer::SourcePosition;
use bfvm::lexer::Token;
use bfvm::lexer::is_bf_command;

#[test]
fn recognizes_the_eight_command_characters() {
    for ch in ['+', '-', '<', '>', '.', ',', '[', ']'] {
        assert!(is_bf_command(ch));
    }
    for ch in ['a', ' ', '\n', '0', '{', '!'] {
        assert!(!is_bf_command(ch));
    }
}

#[test]
fn next_token_skips_comments() {
    let mut lexer = Lexer::from_source("say + hi - now < then > stop . go , up [ down ]");
    let expected = [
        Token::Plus,
        Token::Minus,
        Token::ArrowLeft,
        Token::ArrowRight,
        Token::Dot,
        Token::Comma,
        Token::BracketLeft,
        Token::BracketRight,
        Token::EndOfFile,
    ];
    for want in expected {
        assert_eq!(lexer.next_token(), want);
    }
}

#[test]
fn next_token_is_idempotent_at_end_of_input() {
    let mut lexer = Lexer::from_source("+");
    assert_eq!(lexer.next_token(), Token::Plus);
    assert_eq!(lexer.next_token(), Token::EndOfFile);
    assert_eq!(lexer.next_token(), Token::EndOfFile);
}

#[test]
fn lexer_tracks_line_and_column() {
    let mut lexer = Lexer::from_source("ab+\nc-");
    assert_eq!(lexer.next_token(), Token::Plus);
    let pos = lexer.position();
    assert_eq!(pos.line, 1);
    assert_eq!(pos.column, 3);
    assert_eq!(lexer.next_token(), Token::Minus);
    // The newline itself counts as column 1 of the new line, so `c` sits
    // at column 2 and `-` at column 3.
    let pos = lexer.current_position();
    assert_eq!(pos.line, 2);
    assert_eq!(pos.column, 3);
}

#[test]
fn source_position_begin_and_moves() {
    let mut pos = SourcePosition::begin();
    assert_eq!(pos.line, 1);
    assert_eq!(pos.column, 0);
    pos.next_column();
    assert_eq!(pos.line, 1);
    assert_eq!(pos.column, 1);
    pos.next_line();
    assert_eq!(pos.line, 2);
    assert_eq!(pos.column, 1);
    let fresh: SourcePosition = Default::default();
    assert_eq!(fresh, SourcePosition::begin());
}

#[test]
fn lexemes_name_their_characters() {
    assert_eq!(Token::Plus.lexeme(), "'+'");
    assert_eq!(Token::Minus.lexeme(), "'-'");
    assert_eq!(Token::ArrowLeft.lexeme(), "'<'");
    assert_eq!(Token::ArrowRight.lexeme(), "'>'");
    assert_eq!(Token::Dot.lexeme(), "'.'");
    assert_eq!(Token::Comma.lexeme(), "','");
    assert_eq!(Token::BracketLeft.lexeme(), "'['");
    assert_eq!(Token::BracketRight.lexeme(), "']'");
    assert_eq!(Token::EndOfFile.lexeme(), "end-of-file");
}

#[test]
fn get_token_matches_next_token() {
    let source = "comments [ are . ignored , here ] +-<>";
    let mut analyzer = LexicalAnalyzer::new(source);
    let mut lexer = Lexer::from_source(source);
    loop {
        let a = analyzer.get_token();
        let b = lexer.next_token();
        assert_eq!(a, b);
        if a == Token::EndOfFile {
            break;
        }
    }
}

#[test]
fn get_token_on_comment_only_source() {
    let mut analyzer = LexicalAnalyzer::new("nothing to see here");
    assert_eq!(analyzer.get_token(), Token::EndOfFile);
    assert_eq!(analyzer.get_token(), Token::EndOfFile);
}
