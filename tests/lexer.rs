use sql_lexer::lexer::{BytePos, LexError, LexedToken, Lexer, Span};
use sql_lexer::token::{Keyword, Op, Token};

fn expected_token(token: Token, start: BytePos, end: BytePos) -> Result<LexedToken, LexError> {
    Ok(LexedToken {
        token: token,
        span: Span::new(start, end),
    })
}

#[test]
fn retuns_eof_for_empty_string() {
    assert_eq!(expected_token(Token::Eof, 0, 0),
               Lexer::new("").next_token());
}

#[test]
fn retuns_whitespace_and_eof_for_string_with_only_whitespace() {
    let mut lexer = Lexer::new("   ");

    assert_eq!(expected_token(Token::Whitespace, 0, 2), lexer.next_token());
    assert_eq!(expected_token(Token::Eof, 2, 2), lexer.next_token());
}

#[test]
fn returns_comment_token_for_dash_dash_comment_only() {
    let mut lexer = Lexer::new("-- comment");

    assert_eq!(expected_token(Token::Comment(" comment".to_string()), 0, 10),
               lexer.next_token());

    assert_eq!(expected_token(Token::Eof, 10, 10), lexer.next_token());
}

#[test]
fn recognizes_keywords_regardless_of_case() {
    let mut lexer = Lexer::new("select FROM WhErE");

    assert_eq!(expected_token(Token::Keyword(Keyword::Select), 0, 5),
               lexer.next_token());

    assert_eq!(expected_token(Token::Whitespace, 6, 6), lexer.next_token());

    assert_eq!(expected_token(Token::Keyword(Keyword::From), 7, 10),
               lexer.next_token());

    assert_eq!(expected_token(Token::Whitespace, 11, 11),
               lexer.next_token());

    assert_eq!(expected_token(Token::Keyword(Keyword::Where), 12, 16),
               lexer.next_token());
}

#[test]
fn returns_downcased_unquoted_identifiers() {
    let mut lexer = Lexer::new("_foo BaR IDENT2 ídèñt$3_");

    assert_eq!(expected_token(Token::Ident("_foo".to_string()), 0, 3),
               lexer.next_token());

    assert_eq!(expected_token(Token::Whitespace, 4, 4), lexer.next_token());

    assert_eq!(expected_token(Token::Ident("bar".to_string()), 5, 7),
               lexer.next_token());

    assert_eq!(expected_token(Token::Whitespace, 8, 8), lexer.next_token());

    assert_eq!(expected_token(Token::Ident("ident2".to_string()), 9, 14),
               lexer.next_token());

    assert_eq!(expected_token(Token::Whitespace, 15, 15),
               lexer.next_token());

    assert_eq!(expected_token(Token::Ident("ídèñt$3_".to_string()), 16, 26),
               lexer.next_token());

    assert_eq!(expected_token(Token::Eof, 26, 26), lexer.next_token());
}

#[test]
fn recognizes_operators_surrounded_by_whitespace() {
    let mut lexer = Lexer::new("+ - * / % = != <> <= >= < >");

    assert_eq!(expected_token(Token::Op(Op::Plus), 0, 0),
               lexer.next_token());

    assert_eq!(expected_token(Token::Whitespace, 1, 1),
               lexer.next_token());

    assert_eq!(expected_token(Token::Op(Op::Minus), 2, 2),
               lexer.next_token());

    assert_eq!(expected_token(Token::Whitespace, 3, 3),
               lexer.next_token());

    assert_eq!(expected_token(Token::Op(Op::Star), 4, 4),
               lexer.next_token());

    assert_eq!(expected_token(Token::Whitespace, 5, 5),
               lexer.next_token());

    assert_eq!(expected_token(Token::Op(Op::Slash), 6, 6),
               lexer.next_token());

    assert_eq!(expected_token(Token::Whitespace, 7, 7),
               lexer.next_token());

    assert_eq!(expected_token(Token::Op(Op::Percent), 8, 8),
               lexer.next_token());

    assert_eq!(expected_token(Token::Whitespace, 9, 9),
               lexer.next_token());

    assert_eq!(expected_token(Token::Op(Op::Eq), 10, 10),
               lexer.next_token());

    assert_eq!(expected_token(Token::Whitespace, 11, 11),
               lexer.next_token());

    assert_eq!(expected_token(Token::Op(Op::NotEq), 12, 13),
               lexer.next_token());

    assert_eq!(expected_token(Token::Whitespace, 14, 14),
               lexer.next_token());

    assert_eq!(expected_token(Token::Op(Op::NotEq), 15, 16),
               lexer.next_token());

    assert_eq!(expected_token(Token::Whitespace, 17, 17),
               lexer.next_token());

    assert_eq!(expected_token(Token::Op(Op::LtEq), 18, 19),
               lexer.next_token());

    assert_eq!(expected_token(Token::Whitespace, 20, 20),
               lexer.next_token());

    assert_eq!(expected_token(Token::Op(Op::GtEq), 21, 22),
               lexer.next_token());

    assert_eq!(expected_token(Token::Whitespace, 23, 23),
               lexer.next_token());

    assert_eq!(expected_token(Token::Op(Op::Lt), 24, 24),
               lexer.next_token());

    assert_eq!(expected_token(Token::Whitespace, 25, 25),
               lexer.next_token());

    assert_eq!(expected_token(Token::Op(Op::Gt), 26, 26),
               lexer.next_token());

    assert_eq!(expected_token(Token::Eof, 26, 26),
               lexer.next_token());
}

#[test]
fn recognizes_operators_even_when_joined_together() {
    let mut lexer = Lexer::new("+-*/%=!=<><=>=><");

    assert_eq!(expected_token(Token::Op(Op::Plus), 0, 0),
               lexer.next_token());

    assert_eq!(expected_token(Token::Op(Op::Minus), 1, 1),
               lexer.next_token());

    assert_eq!(expected_token(Token::Op(Op::Star), 2, 2),
               lexer.next_token());

    assert_eq!(expected_token(Token::Op(Op::Slash), 3, 3),
               lexer.next_token());

    assert_eq!(expected_token(Token::Op(Op::Percent), 4, 4),
               lexer.next_token());

    assert_eq!(expected_token(Token::Op(Op::Eq), 5, 5),
               lexer.next_token());

    assert_eq!(expected_token(Token::Op(Op::NotEq), 6, 7),
               lexer.next_token());

    assert_eq!(expected_token(Token::Op(Op::NotEq), 8, 9),
               lexer.next_token());

    assert_eq!(expected_token(Token::Op(Op::LtEq), 10, 11),
               lexer.next_token());

    assert_eq!(expected_token(Token::Op(Op::GtEq), 12, 13),
               lexer.next_token());

    assert_eq!(expected_token(Token::Op(Op::Gt), 14, 14),
               lexer.next_token());

    assert_eq!(expected_token(Token::Op(Op::Lt), 15, 15),
               lexer.next_token());
}
