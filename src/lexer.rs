//! The tokenizer: an ordered list of scan rules over a [`StringReader`].
use vstd::prelude::*;

use crate::reader::{lemma_scan_while_run, lemma_scan_while_stops, scan_while, StringReader};
use crate::text::{byte_offset, chars_of, fold_text, is_whitespace, to_lower, ws_char};
use crate::text::lemma_byte_offset_step;
use crate::token::{keyword_of, op_of, Keyword, Op, Token, TokenModel};

verus! {

pub type BytePos = usize;

/// A byte range of the text; `end` is the position of the last character
/// of the range.
#[derive(Debug, Clone, Copy, PartialEq, Eq, Structural)]
pub struct Span {
    /// Byte position where the range starts.
    pub start: BytePos,
    /// Byte position where the range ends.
    pub end: BytePos,
}

impl Span {
    pub fn new(start: BytePos, end: BytePos) -> (r: Span)
        requires
            start <= end,
        ensures
            r.start == start,
            r.end == end,
    {
        Span { start: start, end: end }
    }
}

/// A token and the byte positions it spans.
#[derive(Debug, PartialEq, Eq)]
pub struct LexedToken {
    /// The token that was found.
    pub token: Token,
    /// Where the token was found.
    pub span: Span,
}

/// A lexed token as a mathematical value.
pub struct Lexeme {
    pub token: TokenModel,
    pub start: int,
    pub end: int,
}

impl View for LexedToken {
    type V = Lexeme;

    open spec fn view(&self) -> Lexeme {
        Lexeme { token: self.token@, start: self.span.start as int, end: self.span.end as int }
    }
}

impl LexedToken {
    fn new(token: Token, start: BytePos, end: BytePos) -> (r: LexedToken)
        requires
            start <= end,
        ensures
            r@ == (Lexeme { token: token@, start: start as int, end: end as int }),
    {
        LexedToken { token: token, span: Span::new(start, end) }
    }

    fn new_at(token: Token, pos: BytePos) -> (r: LexedToken)
        ensures
            r@ == (Lexeme { token: token@, start: pos as int, end: pos as int }),
    {
        LexedToken::new(token, pos, pos)
    }
}

/// A character that no scan rule accepts, and its byte position.
#[derive(Debug, Clone, Copy, PartialEq, Eq, Structural)]
pub struct LexError {
    pub ch: char,
    pub pos: BytePos,
}

// Character classes.

pub open spec fn ident_start_char(c: char) -> bool {
    ||| 'a' <= c <= 'z'
    ||| 'A' <= c <= 'Z'
    ||| '\u{80}' <= c <= '\u{FF}'
    ||| c == '_'
}

pub open spec fn ident_cont_char(c: char) -> bool {
    ||| ident_start_char(c)
    ||| '0' <= c <= '9'
    ||| c == '$'
}

pub open spec fn single_op_char(c: char) -> bool {
    c == '+' || c == '-' || c == '*' || c == '/' || c == '%' || c == '=' || c == '<' || c == '>'
}

pub open spec fn multi_op_start_char(c: char) -> bool {
    c == '!' || c == '<' || c == '>'
}

pub open spec fn multi_op_cont_char(c: char) -> bool {
    c == '=' || c == '>'
}

pub fn is_ident_start(c: char) -> (r: bool)
    ensures
        r == ident_start_char(c),
{
    ('a' <= c && c <= 'z') || ('A' <= c && c <= 'Z') || ('\u{80}' <= c && c <= '\u{FF}') || c
        == '_'
}

pub fn is_ident_cont(c: char) -> (r: bool)
    ensures
        r == ident_cont_char(c),
{
    is_ident_start(c) || ('0' <= c && c <= '9') || c == '$'
}

pub fn is_single_byte_op_char(c: char) -> (r: bool)
    ensures
        r == single_op_char(c),
{
    c == '+' || c == '-' || c == '*' || c == '/' || c == '%' || c == '=' || c == '<' || c == '>'
}

pub fn is_multi_byte_op_start(c: char) -> (r: bool)
    ensures
        r == multi_op_start_char(c),
{
    c == '!' || c == '<' || c == '>'
}

pub fn is_multi_byte_op_cont(c: char) -> (r: bool)
    ensures
        r == multi_op_cont_char(c),
{
    c == '=' || c == '>'
}

// The scan rules as mathematical functions.

/// What the tokenizer reads: the text, the index of the current character,
/// and the byte position of the character read last.
pub struct LexState {
    pub input: Seq<char>,
    pub index: int,
    pub prev: int,
}

pub open spec fn ws_class() -> spec_fn(char) -> bool {
    |c: char| ws_char(c)
}

pub open spec fn ident_class() -> spec_fn(char) -> bool {
    |c: char| ident_cont_char(c)
}

pub open spec fn line_class() -> spec_fn(char) -> bool {
    |c: char| c != '\n'
}

/// Byte position of the character at index `i`.
pub open spec fn pos(st: LexState, i: int) -> int {
    byte_offset(st.input, i) as int
}

pub open spec fn lexeme(token: TokenModel, start: int, end: int) -> Lexeme {
    Lexeme { token, start, end }
}

pub open spec fn moved(st: LexState, index: int, prev: int) -> LexState {
    LexState { input: st.input, index, prev }
}

/// At the end of the text: a zero-width end-of-input token at the position
/// read last, and nothing moves.
pub open spec fn eof_rule(st: LexState) -> Option<(Lexeme, LexState)> {
    if st.index >= st.input.len() {
        Some((lexeme(TokenModel::Eof, st.prev, st.prev), st))
    } else {
        None
    }
}

/// A maximal run of whitespace.
pub open spec fn whitespace_rule(st: LexState) -> Option<(Lexeme, LexState)> {
    let i = st.index;
    if 0 <= i < st.input.len() && ws_char(st.input[i]) {
        let j = scan_while(st.input, i, ws_class());
        Some((lexeme(TokenModel::Whitespace, pos(st, i), pos(st, j - 1)), moved(st, j, pos(st, j - 1))))
    } else {
        None
    }
}

/// `--` and the rest of its line; the newline is read too. The span ends at
/// the newline, or at the end of the text.
pub open spec fn comment_rule(st: LexState) -> Option<(Lexeme, LexState)> {
    let s = st.input;
    let i = st.index;
    if 0 <= i && i + 1 < s.len() && s[i] == '-' && s[i + 1] == '-' {
        let k = scan_while(s, i + 2, line_class());
        let next = if k < s.len() {
            k + 1
        } else {
            k
        };
        Some((lexeme(TokenModel::Comment(s.subrange(i + 2, k)), pos(st, i), pos(st, k)), moved(st, next, pos(st, k))))
    } else {
        None
    }
}

/// The text tried as a two-character operator: the current character, with
/// the next one when that may continue an operator.
pub open spec fn op_candidate(s: Seq<char>, i: int) -> Seq<char> {
    if i + 1 < s.len() && multi_op_cont_char(s[i + 1]) {
        seq![s[i], s[i + 1]]
    } else {
        seq![s[i]]
    }
}

pub open spec fn op_lexeme(st: LexState, op: Op, n: int) -> (Lexeme, LexState) {
    let i = st.index;
    (lexeme(TokenModel::Op(op), pos(st, i), pos(st, i) + n - 1), moved(st, i + n, pos(st, i)))
}

pub open spec fn multi_op_rule(st: LexState) -> Option<(Lexeme, LexState)> {
    let s = st.input;
    let i = st.index;
    if 0 <= i < s.len() && multi_op_start_char(s[i]) {
        match op_of(op_candidate(s, i)) {
            Some(op) => Some(op_lexeme(st, op, op_candidate(s, i).len() as int)),
            None => None,
        }
    } else {
        None
    }
}

pub open spec fn single_op_rule(st: LexState) -> Option<(Lexeme, LexState)> {
    let s = st.input;
    let i = st.index;
    if 0 <= i < s.len() && single_op_char(s[i]) {
        match op_of(seq![s[i]]) {
            Some(op) => Some(op_lexeme(st, op, 1)),
            None => None,
        }
    } else {
        None
    }
}

/// An operator, the longer form first.
pub open spec fn operator_rule(st: LexState) -> Option<(Lexeme, LexState)> {
    match multi_op_rule(st) {
        Some(r) => Some(r),
        None => single_op_rule(st),
    }
}

/// The token for a folded word: a keyword when it names one.
pub open spec fn word_token(text: Seq<char>) -> TokenModel {
    match keyword_of(text) {
        Some(k) => TokenModel::Keyword(k),
        None => TokenModel::Ident(text),
    }
}

/// A keyword or an unquoted identifier, folded to lower case.
pub open spec fn word_rule(st: LexState) -> Option<(Lexeme, LexState)> {
    let s = st.input;
    let i = st.index;
    if 0 <= i < s.len() && ident_start_char(s[i]) {
        let j = scan_while(s, i, ident_class());
        let text = fold_text(s.subrange(i, j));
        Some((lexeme(word_token(text), pos(st, i), pos(st, j - 1)), moved(st, j, pos(st, j - 1))))
    } else {
        None
    }
}

/// The first rule that matches, in the order: end of input, whitespace,
/// comment, operator.
pub open spec fn first_rule(st: LexState) -> Option<(Lexeme, LexState)> {
    match eof_rule(st) {
        Some(r) => Some(r),
        None => match whitespace_rule(st) {
            Some(r) => Some(r),
            None => match comment_rule(st) {
                Some(r) => Some(r),
                None => operator_rule(st),
            },
        },
    }
}

/// One call of the tokenizer: the token or the error, and the state after.
/// On an error nothing moves.
pub open spec fn lex_step(st: LexState) -> (Result<Lexeme, LexError>, LexState) {
    match first_rule(st) {
        Some((t, next)) => (Ok(t), next),
        None => match word_rule(st) {
            Some((t, next)) => (Ok(t), next),
            None => (Err(LexError { ch: st.input[st.index], pos: pos(st, st.index) as usize }), st),
        },
    }
}

pub open spec fn emitted(r: Option<LexedToken>, st: LexState) -> Option<(Lexeme, LexState)> {
    match r {
        Some(t) => Some((t@, st)),
        None => None,
    }
}

pub open spec fn result_view(r: Result<LexedToken, LexError>) -> Result<Lexeme, LexError> {
    match r {
        Ok(t) => Ok(t@),
        Err(e) => Err(e),
    }
}

/// The start of a text.
pub open spec fn start_state(s: Seq<char>) -> LexState {
    LexState { input: s, index: 0, prev: 0 }
}

// The tokenizer.

pub struct Lexer {
    reader: StringReader,
}

impl View for Lexer {
    type V = LexState;

    closed spec fn view(&self) -> LexState {
        LexState {
            input: self.reader.input@,
            index: self.reader.index as int,
            prev: self.reader.prev_pos as int,
        }
    }
}

impl Lexer {
    pub closed spec fn wf(&self) -> bool {
        self.reader.wf()
    }

    /// A tokenizer at the start of `input`.
    pub fn new(input: &str) -> (r: Lexer)
        ensures
            r.wf(),
            r@ == start_state(input@),
    {
        Lexer { reader: StringReader::new(input) }
    }

    /// Reads the next token; once the end is reached, every call returns the
    /// end-of-input token at the same place.
    pub fn next_token(&mut self) -> (r: Result<LexedToken, LexError>)
        requires
            old(self).wf(),
        ensures
            final(self).wf(),
            (result_view(r), final(self)@) == lex_step(old(self)@),
    {
        if let Some(t) = self.next_token_opt() {
            Ok(t)
        } else {
            self.next_token_res()
        }
    }

    fn next_token_opt(&mut self) -> (r: Option<LexedToken>)
        requires
            old(self).wf(),
        ensures
            final(self).wf(),
            emitted(r, final(self)@) == first_rule(old(self)@),
            r is None ==> final(self)@ == old(self)@,
    {
        if let Some(t) = self.scan_eof() {
            return Some(t);
        }
        if let Some(t) = self.scan_whitespace() {
            return Some(t);
        }
        if let Some(t) = self.scan_comment() {
            return Some(t);
        }
        self.scan_operator()
    }

    fn next_token_res(&mut self) -> (r: Result<LexedToken, LexError>)
        requires
            old(self).wf(),
            first_rule(old(self)@) is None,
        ensures
            final(self).wf(),
            (result_view(r), final(self)@) == lex_step(old(self)@),
    {
        let c = self.reader.curr_char.unwrap();
        if is_ident_start(c) {
            self.scan_keyword_or_unquoted_identifier()
        } else {
            Err(LexError { ch: c, pos: self.reader.curr_pos })
        }
    }

    fn scan_whitespace(&mut self) -> (r: Option<LexedToken>)
        requires
            old(self).wf(),
        ensures
            final(self).wf(),
            emitted(r, final(self)@) == whitespace_rule(old(self)@),
            r is None ==> final(self)@ == old(self)@,
    {
        let c = self.reader.curr_char.unwrap_or('\0');
        if is_whitespace(c) {
            let start = self.reader.curr_pos;
            let ghost s = self.reader.input@;
            let ghost i = self.reader.index as int;
            self.consume_whitespace();
            let ghost j = self.reader.index as int;
            proof {
                lemma_scan_while_run(s, i + 1, ws_class());
                lemma_byte_offset_mono_prev(s, i, j);
            }
            Some(LexedToken::new(Token::Whitespace, start, self.reader.prev_pos))
        } else {
            None
        }
    }

    fn scan_comment(&mut self) -> (r: Option<LexedToken>)
        requires
            old(self).wf(),
        ensures
            final(self).wf(),
            emitted(r, final(self)@) == comment_rule(old(self)@),
            r is None ==> final(self)@ == old(self)@,
    {
        if self.reader.curr_is('-') && self.reader.next_is('-') {
            let start = self.reader.curr_pos;
            let ghost s = self.reader.input@;
            let ghost i = self.reader.index as int;
            // Move past the `--` characters.
            self.reader.advance();
            self.reader.advance();
            let comment = self.reader.read_line();
            proof {
                lemma_scan_while_run(s, i + 2, line_class());
                crate::text::lemma_byte_offset_mono(s, i, scan_while(s, i + 2, line_class()));
            }
            Some(LexedToken::new(Token::Comment(comment), start, self.reader.prev_pos))
        } else {
            None
        }
    }

    fn scan_eof(&mut self) -> (r: Option<LexedToken>)
        requires
            old(self).wf(),
        ensures
            final(self).wf(),
            emitted(r, final(self)@) == eof_rule(old(self)@),
            final(self)@ == old(self)@,
    {
        if self.reader.is_eof() {
            Some(LexedToken::new_at(Token::Eof, self.reader.prev_pos))
        } else {
            None
        }
    }

    fn scan_operator(&mut self) -> (r: Option<LexedToken>)
        requires
            old(self).wf(),
            old(self)@.index < old(self)@.input.len(),
        ensures
            final(self).wf(),
            emitted(r, final(self)@) == operator_rule(old(self)@),
            r is None ==> final(self)@ == old(self)@,
    {
        if let Some(t) = self.scan_multi_byte_operator() {
            Some(t)
        } else {
            self.scan_single_byte_operator()
        }
    }

    fn scan_single_byte_operator(&mut self) -> (r: Option<LexedToken>)
        requires
            old(self).wf(),
            old(self)@.index < old(self)@.input.len(),
        ensures
            final(self).wf(),
            emitted(r, final(self)@) == single_op_rule(old(self)@),
            r is None ==> final(self)@ == old(self)@,
    {
        let curr = self.reader.curr_char.unwrap();
        if !is_single_byte_op_char(curr) {
            return None;
        }
        let candidate = vec![curr];
        assert(candidate@ == seq![curr]);
        match Op::from_chars(&candidate) {
            Some(op) => {
                let pos = self.reader.curr_pos;
                self.reader.advance();
                Some(LexedToken::new_at(Token::Op(op), pos))
            },
            None => None,
        }
    }

    fn scan_multi_byte_operator(&mut self) -> (r: Option<LexedToken>)
        requires
            old(self).wf(),
            old(self)@.index < old(self)@.input.len(),
        ensures
            final(self).wf(),
            emitted(r, final(self)@) == multi_op_rule(old(self)@),
            r is None ==> final(self)@ == old(self)@,
    {
        let curr = self.reader.curr_char.unwrap();
        if !is_multi_byte_op_start(curr) {
            return None;
        }
        let ghost s = self.reader.input@;
        let ghost i = self.reader.index as int;
        let mut candidate = vec![curr];
        let next = self.reader.peek_next().unwrap_or('\0');
        if is_multi_byte_op_cont(next) {
            candidate.push(next);
        }
        assert(candidate@ == op_candidate(s, i));
        match Op::from_chars(&candidate) {
            Some(op) => {
                let n: usize = candidate.len();
                let start = self.reader.curr_pos;
                proof {
                    lemma_byte_offset_step(s, i);
                    if n == 2 {
                        lemma_byte_offset_step(s, i + 1);
                    }
                    crate::text::lemma_byte_offset_mono(s, i + n, s.len() as int);
                }
                let end = start + n - 1;
                self.reader.advance_bytes(n);
                proof {
                    lemma_offset_injective(s, self.reader.index as int, i + n);
                }
                Some(LexedToken::new(Token::Op(op), start, end))
            },
            None => None,
        }
    }

    fn scan_keyword_or_unquoted_identifier(&mut self) -> (r: Result<LexedToken, LexError>)
        requires
            old(self).wf(),
            word_rule(old(self)@) is Some,
        ensures
            final(self).wf(),
            r is Ok,
            emitted(r.ok(), final(self)@) == word_rule(old(self)@),
    {
        let start = self.reader.curr_pos;
        let ghost s = self.reader.input@;
        let ghost i = self.reader.index as int;
        let word = self.reader.read_while(is_ident_cont);
        let ghost j = self.reader.index as int;
        proof {
            lemma_scan_while_stops(s, i, j, ident_class());
            lemma_byte_offset_mono_prev(s, i, j);
        }
        // Keywords and unquoted identifiers are case insensitive.
        let ident = fold_string(&word);
        let tok = match Keyword::from_chars(&chars_of(ident.as_str())) {
            Some(keyword) => Token::Keyword(keyword),
            None => Token::Ident(ident),
        };
        Ok(LexedToken::new(tok, start, self.reader.prev_pos))
    }

    fn consume_whitespace(&mut self)
        requires
            old(self).wf(),
        ensures
            final(self).wf(),
            final(self).reader.input@ == old(self).reader.input@,
            final(self).reader.index as int == scan_while(
                old(self).reader.input@,
                old(self).reader.index as int,
                ws_class(),
            ),
            final(self).reader.index > old(self).reader.index ==> final(self).reader.prev_pos
                == byte_offset(old(self).reader.input@, final(self).reader.index - 1),
    {
        let ghost s = self.reader.input@;
        let ghost i = self.reader.index as int;
        self.reader.advance_while(is_whitespace);
        proof {
            lemma_scan_while_stops(s, i, self.reader.index as int, ws_class());
        }
    }
}

/// `s` with each character folded to lower case.
fn fold_string(s: &String) -> (r: String)
    ensures
        r@ == fold_text(s@),
{
    let chars = chars_of(s.as_str());
    let mut r = String::new();
    let mut i: usize = 0;
    while i < chars.len()
        invariant
            chars@ == s@,
            i <= chars@.len(),
            r@ == fold_text(s@.subrange(0, i as int)),
        decreases chars@.len() - i,
    {
        crate::text::push_char(&mut r, to_lower(chars[i]));
        i = i + 1;
        assert(r@ =~= fold_text(s@.subrange(0, i as int)));
    }
    assert(s@.subrange(0, i as int) =~= s@);
    r
}

/// Byte offsets of two indices agree only when the indices do.
proof fn lemma_offset_injective(s: Seq<char>, a: int, b: int)
    requires
        0 <= a <= s.len(),
        0 <= b <= s.len(),
        byte_offset(s, a) == byte_offset(s, b),
    ensures
        a == b,
{
    if a < b {
        crate::text::lemma_byte_offset_mono(s, a, b);
    } else if b < a {
        crate::text::lemma_byte_offset_mono(s, b, a);
    }
}

/// The character before index `j` starts no earlier than index `i` does.
proof fn lemma_byte_offset_mono_prev(s: Seq<char>, i: int, j: int)
    requires
        0 <= i < j <= s.len(),
    ensures
        byte_offset(s, i) <= byte_offset(s, j - 1),
{
    crate::text::lemma_byte_offset_mono(s, i, j - 1);
}

} // verus!
