//! Tokens of the language: keywords, identifiers, operators, whitespace,
//! comments and the end of input.
use vstd::prelude::*;

use crate::text::chars_of;

verus! {

/// A classified lexical unit.
#[derive(Debug, PartialEq, Eq)]
pub enum Token {
    Keyword(Keyword),
    /// An unquoted identifier, folded to lower case.
    Ident(String),
    Op(Op),
    /// A maximal run of whitespace.
    Whitespace,
    /// The text after a `--` marker, up to the end of its line.
    Comment(String),
    /// The end of the input; it repeats once reached.
    Eof,
}

#[derive(Debug, Clone, Copy, PartialEq, Eq, Structural)]
pub enum Keyword {
    From,
    Select,
    Where,
}

#[derive(Debug, Clone, Copy, PartialEq, Eq, Structural)]
pub enum Op {
    Minus,
    Plus,
    Star,
    Slash,
    Percent,
    Eq,
    NotEq,
    Lt,
    Gt,
    LtEq,
    GtEq,
}

/// A token as a mathematical value: its text fields seen as sequences.
pub enum TokenModel {
    Keyword(Keyword),
    Ident(Seq<char>),
    Op(Op),
    Whitespace,
    Comment(Seq<char>),
    Eof,
}

impl View for Token {
    type V = TokenModel;

    open spec fn view(&self) -> TokenModel {
        match self {
            Token::Keyword(k) => TokenModel::Keyword(*k),
            Token::Ident(s) => TokenModel::Ident(s@),
            Token::Op(op) => TokenModel::Op(*op),
            Token::Whitespace => TokenModel::Whitespace,
            Token::Comment(s) => TokenModel::Comment(s@),
            Token::Eof => TokenModel::Eof,
        }
    }
}

/// The text does not name a token of the kind asked for.
#[derive(Debug, Clone, Copy, PartialEq, Eq, Structural)]
pub struct TokenParseError;

/// `c` with an ASCII capital letter turned into its small letter.
pub open spec fn ascii_lower(c: char) -> char {
    if 'A' <= c <= 'Z' {
        ((c as u32) + 32) as char
    } else {
        c
    }
}

/// `s` spells the lower-case word `w`, ignoring the case of ASCII letters.
pub open spec fn spells(s: Seq<char>, w: Seq<char>) -> bool {
    &&& s.len() == w.len()
    &&& forall|i: int| 0 <= i < s.len() ==> ascii_lower(#[trigger] s[i]) == w[i]
}

/// The keyword that `s` names, whatever the case of its letters.
pub open spec fn keyword_of(s: Seq<char>) -> Option<Keyword> {
    if spells(s, seq!['f', 'r', 'o', 'm']) {
        Some(Keyword::From)
    } else if spells(s, seq!['s', 'e', 'l', 'e', 'c', 't']) {
        Some(Keyword::Select)
    } else if spells(s, seq!['w', 'h', 'e', 'r', 'e']) {
        Some(Keyword::Where)
    } else {
        None
    }
}

/// The operator that `s` spells exactly.
pub open spec fn op_of(s: Seq<char>) -> Option<Op> {
    if s == seq!['+'] {
        Some(Op::Plus)
    } else if s == seq!['-'] {
        Some(Op::Minus)
    } else if s == seq!['*'] {
        Some(Op::Star)
    } else if s == seq!['/'] {
        Some(Op::Slash)
    } else if s == seq!['%'] {
        Some(Op::Percent)
    } else if s == seq!['='] {
        Some(Op::Eq)
    } else if s == seq!['<'] {
        Some(Op::Lt)
    } else if s == seq!['>'] {
        Some(Op::Gt)
    } else if s == seq!['!', '='] || s == seq!['<', '>'] {
        Some(Op::NotEq)
    } else if s == seq!['<', '='] {
        Some(Op::LtEq)
    } else if s == seq!['>', '='] {
        Some(Op::GtEq)
    } else {
        None
    }
}

fn lower_ascii(c: char) -> (r: char)
    ensures
        r == ascii_lower(c),
{
    if 'A' <= c && c <= 'Z' {
        let b: u8 = (c as u8) + 32;
        b as char
    } else {
        c
    }
}

fn spells_word(s: &Vec<char>, w: &Vec<char>) -> (r: bool)
    ensures
        r == spells(s@, w@),
{
    if s.len() != w.len() {
        return false;
    }
    let mut i: usize = 0;
    while i < s.len()
        invariant
            s@.len() == w@.len(),
            i <= s@.len(),
            forall|k: int| 0 <= k < i ==> ascii_lower(#[trigger] s@[k]) == w@[k],
        decreases s@.len() - i,
    {
        if lower_ascii(s[i]) != w[i] {
            return false;
        }
        i = i + 1;
    }
    true
}

impl Keyword {
    /// The keyword that `s` names, whatever the case of its letters.
    pub fn from_chars(s: &Vec<char>) -> (r: Option<Keyword>)
        ensures
            r == keyword_of(s@),
    {
        if spells_word(s, &vec!['f', 'r', 'o', 'm']) {
            Some(Keyword::From)
        } else if spells_word(s, &vec!['s', 'e', 'l', 'e', 'c', 't']) {
            Some(Keyword::Select)
        } else if spells_word(s, &vec!['w', 'h', 'e', 'r', 'e']) {
            Some(Keyword::Where)
        } else {
            None
        }
    }
}

impl Op {
    /// The operator that `s` spells exactly.
    pub fn from_chars(s: &Vec<char>) -> (r: Option<Op>)
        ensures
            r == op_of(s@),
    {
        if s.len() == 1 {
            let c = s[0];
            assert(s@ == seq![c]);
            if c == '+' {
                Some(Op::Plus)
            } else if c == '-' {
                Some(Op::Minus)
            } else if c == '*' {
                Some(Op::Star)
            } else if c == '/' {
                Some(Op::Slash)
            } else if c == '%' {
                Some(Op::Percent)
            } else if c == '=' {
                Some(Op::Eq)
            } else if c == '<' {
                Some(Op::Lt)
            } else if c == '>' {
                Some(Op::Gt)
            } else {
                None
            }
        } else if s.len() == 2 {
            let c = s[0];
            let d = s[1];
            assert(s@ == seq![c, d]);
            if d != '=' && !(c == '<' && d == '>') {
                None
            } else if c == '!' || c == '<' && d == '>' {
                Some(Op::NotEq)
            } else if c == '<' {
                Some(Op::LtEq)
            } else if c == '>' {
                Some(Op::GtEq)
            } else {
                None
            }
        } else {
            proof {
                assert(forall|a: char| s@ != seq![a]);
                assert(forall|a: char, b: char| s@ != seq![a, b]);
            }
            None
        }
    }
}

impl std::str::FromStr for Keyword {
    type Err = TokenParseError;

    fn from_str(s: &str) -> Result<Keyword, TokenParseError> {
        match Keyword::from_chars(&chars_of(s)) {
            Some(k) => Ok(k),
            None => Err(TokenParseError),
        }
    }
}

impl std::str::FromStr for Op {
    type Err = TokenParseError;

    fn from_str(s: &str) -> Result<Op, TokenParseError> {
        match Op::from_chars(&chars_of(s)) {
            Some(op) => Ok(op),
            None => Err(TokenParseError),
        }
    }
}

} // verus!
