use std::str::FromStr;

use sql_lexer::lexer::{LexError, LexedToken, Lexer, Span};
use sql_lexer::reader::StringReader;
use sql_lexer::token::{Keyword, Op, Token, TokenParseError};

fn tok(token: Token, start: usize, end: usize) -> Result<LexedToken, LexError> {
    Ok(LexedToken {
        token: token,
        span: Span::new(start, end),
    })
}

fn ident(s: &str) -> Token {
    Token::Ident(s.to_string())
}

/// Collects the tokens up to and including the end of input.
fn all_tokens(input: &str) -> Vec<LexedToken> {
    let mut lexer = Lexer::new(input);
    let mut out = Vec::new();
    loop {
        let t = lexer.next_token().unwrap();
        let done = t.token == Token::Eof;
        out.push(t);
        if done {
            return out;
        }
    }
}

#[test]
fn empty_input_gives_only_eof() {
    let mut lexer = Lexer::new("");
    assert_eq!(tok(Token::Eof, 0, 0), lexer.next_token());
    assert_eq!(tok(Token::Eof, 0, 0), lexer.next_token());
}

#[test]
fn eof_repeats_with_the_same_span() {
    let mut lexer = Lexer::new("ab ");
    assert_eq!(tok(ident("ab"), 0, 1), lexer.next_token());
    assert_eq!(tok(Token::Whitespace, 2, 2), lexer.next_token());
    assert_eq!(tok(Token::Eof, 2, 2), lexer.next_token());
    assert_eq!(tok(Token::Eof, 2, 2), lexer.next_token());
    assert_eq!(tok(Token::Eof, 2, 2), lexer.next_token());
}

#[test]
fn keywords_in_any_case_are_the_same() {
    for word in ["select", "SELECT", "SeLeCt"] {
        let mut lexer = Lexer::new(word);
        assert_eq!(tok(Token::Keyword(Keyword::Select), 0, 5), lexer.next_token());
        assert_eq!(tok(Token::Eof, 5, 5), lexer.next_token());
    }
}

#[test]
fn identifiers_fold_latin1_letters() {
    let mut lexer = Lexer::new("ÀÉÎ_Ü");
    assert_eq!(tok(ident("àéî_ü"), 0, 7), lexer.next_token());
    assert_eq!(tok(Token::Eof, 7, 7), lexer.next_token());
}

#[test]
fn leading_underscore_keeps_identifier() {
    let mut lexer = Lexer::new("_Select");
    assert_eq!(tok(ident("_select"), 0, 6), lexer.next_token());
}

#[test]
fn digits_and_dollar_continue_identifiers() {
    let mut lexer = Lexer::new("A1$b");
    assert_eq!(tok(ident("a1$b"), 0, 3), lexer.next_token());
}

#[test]
fn lt_eq_is_one_operator() {
    let mut lexer = Lexer::new("<=");
    assert_eq!(tok(Token::Op(Op::LtEq), 0, 1), lexer.next_token());
    assert_eq!(tok(Token::Eof, 0, 0), lexer.next_token());
}

#[test]
fn lt_before_other_character_stands_alone() {
    let mut lexer = Lexer::new("<x");
    assert_eq!(tok(Token::Op(Op::Lt), 0, 0), lexer.next_token());
    assert_eq!(tok(ident("x"), 1, 1), lexer.next_token());
}

#[test]
fn gt_gt_is_two_operators() {
    let mut lexer = Lexer::new(">>");
    assert_eq!(tok(Token::Op(Op::Gt), 0, 0), lexer.next_token());
    assert_eq!(tok(Token::Op(Op::Gt), 1, 1), lexer.next_token());
}

#[test]
fn comment_at_end_of_input() {
    let mut lexer = Lexer::new("-- hello");
    assert_eq!(tok(Token::Comment(" hello".to_string()), 0, 8), lexer.next_token());
    assert_eq!(tok(Token::Eof, 8, 8), lexer.next_token());
}

#[test]
fn comment_then_next_line() {
    let mut lexer = Lexer::new("-- hi\nx");
    assert_eq!(tok(Token::Comment(" hi".to_string()), 0, 5), lexer.next_token());
    assert_eq!(tok(ident("x"), 6, 6), lexer.next_token());
    assert_eq!(tok(Token::Eof, 6, 6), lexer.next_token());
}

#[test]
fn empty_comment_before_newline() {
    let mut lexer = Lexer::new("--\n");
    assert_eq!(tok(Token::Comment(String::new()), 0, 2), lexer.next_token());
    assert_eq!(tok(Token::Eof, 2, 2), lexer.next_token());
}

#[test]
fn comment_keeps_multibyte_text() {
    let mut lexer = Lexer::new("--é\n");
    assert_eq!(tok(Token::Comment("é".to_string()), 0, 4), lexer.next_token());
}

#[test]
fn unsupported_character_is_an_error() {
    let mut lexer = Lexer::new("a # b");
    assert_eq!(tok(ident("a"), 0, 0), lexer.next_token());
    assert_eq!(tok(Token::Whitespace, 1, 1), lexer.next_token());
    assert_eq!(Err(LexError { ch: '#', pos: 2 }), lexer.next_token());
    assert_eq!(Err(LexError { ch: '#', pos: 2 }), lexer.next_token());
}

#[test]
fn bang_without_equals_is_an_error() {
    assert_eq!(Err(LexError { ch: '!', pos: 0 }), Lexer::new("!").next_token());
    assert_eq!(Err(LexError { ch: '!', pos: 0 }), Lexer::new("!>").next_token());
}

#[test]
fn error_position_counts_bytes() {
    let mut lexer = Lexer::new("é?");
    assert_eq!(tok(ident("é"), 0, 0), lexer.next_token());
    assert_eq!(Err(LexError { ch: '?', pos: 2 }), lexer.next_token());
}

#[test]
fn no_break_space_is_whitespace() {
    let mut lexer = Lexer::new("\u{a0}\u{a0}x");
    assert_eq!(tok(Token::Whitespace, 0, 2), lexer.next_token());
    assert_eq!(tok(ident("x"), 4, 4), lexer.next_token());
}

#[test]
fn tokens_cover_the_whole_input() {
    let input = "SELECT a -- pick\n  FROM t WHERE b<>c";
    let tokens = all_tokens(input);
    let mut rebuilt = String::new();
    for pair in tokens.windows(2) {
        let start = pair[0].span.start;
        let next = pair[1].span.start;
        if pair[1].token == Token::Eof {
            rebuilt.push_str(&input[start..]);
        } else {
            rebuilt.push_str(&input[start..next]);
        }
    }
    assert_eq!(input, rebuilt);
    assert_eq!(Token::Keyword(Keyword::Select), tokens[0].token);
    assert_eq!(Token::Comment(" pick".to_string()), tokens[4].token);
    assert_eq!(Token::Op(Op::NotEq), tokens[tokens.len() - 3].token);
}

#[test]
fn keyword_from_str_ignores_case() {
    assert_eq!(Ok(Keyword::Where), Keyword::from_str("wHeRe"));
    assert_eq!(Ok(Keyword::From), Keyword::from_str("FROM"));
    assert_eq!(Err(TokenParseError), Keyword::from_str("selects"));
}

#[test]
fn op_from_str_knows_every_spelling() {
    assert_eq!(Ok(Op::NotEq), Op::from_str("!="));
    assert_eq!(Ok(Op::NotEq), Op::from_str("<>"));
    assert_eq!(Ok(Op::GtEq), Op::from_str(">="));
    assert_eq!(Ok(Op::Percent), Op::from_str("%"));
    assert_eq!(Err(TokenParseError), Op::from_str("=>"));
    assert_eq!(Err(TokenParseError), Op::from_str(""));
}

#[test]
fn reader_moves_by_characters_and_bytes() {
    let mut r = StringReader::new("añb\nc");
    assert_eq!(Some('a'), r.curr_char);
    assert_eq!(Some('ñ'), r.peek_next());
    assert!(r.next_is('ñ'));
    r.advance();
    assert_eq!((0, 1), (r.prev_pos, r.curr_pos));
    r.advance();
    assert_eq!((1, 3), (r.prev_pos, r.curr_pos));
    assert!(r.curr_is('b'));
    assert_eq!("b", r.read_line());
    assert_eq!((4, 5), (r.prev_pos, r.curr_pos));
    assert!(!r.is_eol());
    r.advance();
    assert!(r.is_eof());
    r.advance();
    assert_eq!((6, 6), (r.prev_pos, r.curr_pos));
}

#[test]
fn reader_reads_runs() {
    let mut r = StringReader::new("abc12 x");
    assert_eq!("abc", r.read_while(|c| c.is_ascii_alphabetic()));
    r.advance_while(|c| c.is_ascii_digit());
    assert_eq!((4, 5), (r.prev_pos, r.curr_pos));
    r.advance_bytes(2);
    assert_eq!((5, 7), (r.prev_pos, r.curr_pos));
    assert!(r.is_eof());
}

#[test]
fn reader_stops_at_newline() {
    let mut r = StringReader::new("\nx");
    assert!(r.is_eol());
    assert_eq!("", r.read_line());
    assert_eq!((0, 1), (r.prev_pos, r.curr_pos));
    assert_eq!(Some('x'), r.curr_char);
}
