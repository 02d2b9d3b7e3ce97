//! What holds of the whole stream of tokens that a text gives.
use vstd::prelude::*;

use crate::lexer::{
    comment_rule, eof_rule, first_rule, ident_class, ident_cont_char, lex_step, line_class, operator_rule,
    start_state, word_rule, word_token, ws_class, LexError, LexState, Lexeme,
};
use crate::reader::{lemma_scan_while_run, scan_while};
use crate::text::{byte_offset, char_width, fold_char, fold_text, ws_char};
use crate::token::{keyword_of, TokenModel};

verus! {

/// The state after `n` calls from the start of `s`, or `None` when one of
/// them failed.
pub open spec fn state_after(s: Seq<char>, n: nat) -> Option<LexState>
    decreases n,
{
    if n == 0 {
        Some(start_state(s))
    } else {
        match state_after(s, (n - 1) as nat) {
            Some(st) => match lex_step(st).0 {
                Ok(_) => Some(lex_step(st).1),
                Err(_) => None,
            },
            None => None,
        }
    }
}

/// What call number `k` (from zero) returns, when the calls before it
/// succeeded.
pub open spec fn token_at(s: Seq<char>, k: nat) -> Result<Lexeme, LexError>
    recommends
        state_after(s, k) is Some,
{
    lex_step(state_after(s, k)->Some_0).0
}

/// The text that the first `n` calls read, token after token.
pub open spec fn consumed(s: Seq<char>, n: nat) -> Seq<char>
    decreases n,
{
    if n == 0 {
        Seq::empty()
    } else {
        consumed(s, (n - 1) as nat) + s.subrange(
            state_after(s, (n - 1) as nat)->Some_0.index,
            state_after(s, n)->Some_0.index,
        )
    }
}

/// One successful call reads forward, within the text; a token other than
/// the end of input starts at the byte position of the text it reads.
pub proof fn lemma_step_progress(st: LexState)
    requires
        0 <= st.index <= st.input.len(),
        lex_step(st).0 is Ok,
    ensures
        lex_step(st).1.input == st.input,
        st.index <= lex_step(st).1.index <= st.input.len(),
        st.index < st.input.len() ==> st.index < lex_step(st).1.index,
        st.index < st.input.len() ==> lex_step(st).0->Ok_0.token != TokenModel::Eof,
        st.index < st.input.len() ==> lex_step(st).0->Ok_0.start == byte_offset(
            st.input,
            st.index,
        ),
{
    let s = st.input;
    let i = st.index;
    if i < s.len() {
        if ws_char(s[i]) {
            lemma_scan_while_run(s, i + 1, ws_class());
        } else if comment_rule(st) is Some {
            lemma_scan_while_run(s, i + 2, line_class());
        } else if word_rule(st) is Some && operator_rule(st) is None {
            lemma_scan_while_run(s, i + 1, ident_class());
        }
    }
}

/// Tokenizing loses nothing. Each call reads on from where the one before
/// stopped, and each token but the end of input starts at the byte position
/// of the text it reads; so the texts that the tokens read, put together in
/// order, are the input up to where the reader stands, and after as many
/// calls as the input has characters, the whole input.
pub proof fn lemma_lossless(s: Seq<char>, n: nat)
    requires
        state_after(s, n) is Some,
    ensures
        0 <= state_after(s, n)->Some_0.index <= s.len(),
        state_after(s, n)->Some_0.input == s,
        consumed(s, n) == s.subrange(0, state_after(s, n)->Some_0.index),
        state_after(s, n)->Some_0.index >= n || state_after(s, n)->Some_0.index == s.len(),
        n >= s.len() ==> consumed(s, n) == s,
        forall|k: nat| k < n ==> (#[trigger] state_after(s, k)) is Some,
        forall|k: nat|
            k < n && (#[trigger] token_at(s, k))->Ok_0.token != TokenModel::Eof ==> token_at(
                s,
                k,
            )->Ok_0.start == byte_offset(s, state_after(s, k)->Some_0.index),
    decreases n,
{
    if n == 0 {
        assert(s.subrange(0, 0) =~= Seq::<char>::empty());
    } else {
        let m = (n - 1) as nat;
        lemma_lossless(s, m);
        let st = state_after(s, m)->Some_0;
        lemma_step_progress(st);
        assert(consumed(s, n) =~= s.subrange(0, state_after(s, n)->Some_0.index));
        assert forall|k: nat|
            k < n && (#[trigger] token_at(s, k))->Ok_0.token != TokenModel::Eof implies token_at(
                s,
                k,
            )->Ok_0.start == byte_offset(s, state_after(s, k)->Some_0.index) by {
            if k == m && st.index == s.len() {
                assert(lex_step(st).0->Ok_0.token == TokenModel::Eof);
            }
        }
        if st.index == s.len() {
            assert(eof_rule(st) is Some);
        }
        assert forall|k: nat| k < n implies (#[trigger] state_after(s, k)) is Some by {
            if k < m {
                assert(state_after(s, k) is Some);
            }
        }
        if n >= s.len() {
            assert(s.subrange(0, s.len() as int) =~= s);
        }
    }
}

/// Once the end of input is returned, nothing moves: the next call returns
/// the end of input again, with the same span.
pub proof fn lemma_eof_repeats(st: LexState)
    requires
        lex_step(st).0 is Ok,
        lex_step(st).0->Ok_0.token == TokenModel::Eof,
    ensures
        lex_step(st).1 == st,
        lex_step(lex_step(st).1) == lex_step(st),
{
    if eof_rule(st) is None {
        if word_rule(st) is Some && first_rule(st) is None {
            let text = fold_text(st.input.subrange(st.index, scan_while(st.input, st.index, ident_class())));
            assert(word_token(text) != TokenModel::Eof);
        }
    }
}

/// Two characters that fold to the same one take the same number of bytes.
proof fn lemma_fold_same_width(c: char, d: char)
    requires
        fold_char(c) == fold_char(d),
    ensures
        char_width(c) == char_width(d),
{
}

proof fn lemma_same_offsets(s: Seq<char>, t: Seq<char>, i: int)
    requires
        s.len() == t.len(),
        0 <= i <= s.len(),
        forall|k: int| 0 <= k < s.len() ==> fold_char(#[trigger] s[k]) == fold_char(t[k]),
    ensures
        byte_offset(s, i) == byte_offset(t, i),
    decreases i,
{
    if i > 0 {
        lemma_same_offsets(s, t, i - 1);
        crate::text::lemma_byte_offset_step(s, i - 1);
        crate::text::lemma_byte_offset_step(t, i - 1);
        lemma_fold_same_width(s[i - 1], t[i - 1]);
    }
}

proof fn lemma_same_run(s: Seq<char>, t: Seq<char>, i: int, p: spec_fn(char) -> bool)
    requires
        s.len() == t.len(),
        0 <= i <= s.len(),
        forall|k: int| 0 <= k < s.len() ==> p(#[trigger] s[k]) == p(t[k]),
    ensures
        scan_while(s, i, p) == scan_while(t, i, p),
    decreases s.len() - i,
{
    if i < s.len() {
        lemma_same_run(s, t, i + 1, p);
    }
}

/// Words are read whatever the case of their letters: two texts of word
/// characters that differ only in case give the same first token, so the
/// same keyword, or the same identifier.
pub proof fn lemma_case_insensitive(s: Seq<char>, t: Seq<char>)
    requires
        s.len() == t.len(),
        forall|k: int|
            0 <= k < s.len() ==> ident_cont_char(#[trigger] s[k]) && fold_char(s[k]) == fold_char(
                t[k],
            ),
    ensures
        lex_step(start_state(s)).0 == lex_step(start_state(t)).0,
{
    assert forall|k: int| 0 <= k < s.len() implies ws_char(#[trigger] s[k]) == ws_char(t[k])
        && ident_cont_char(s[k]) == ident_cont_char(t[k]) by {
        let c = s[k];
        let d = t[k];
        assert(fold_char(c) == fold_char(d));
    }
    if s.len() > 0 {
        lemma_same_run(s, t, 0, ws_class());
        lemma_same_run(s, t, 0, ident_class());
        let j = scan_while(s, 0, ws_class());
        let w = scan_while(s, 0, ident_class());
        lemma_scan_while_run(s, 0, ws_class());
        lemma_scan_while_run(s, 0, ident_class());
        if j > 0 {
            lemma_same_offsets(s, t, j - 1);
        }
        if w > 0 {
            lemma_same_offsets(s, t, w - 1);
        }
        assert(fold_text(s.subrange(0, w)) =~= fold_text(t.subrange(0, w)));
        assert(byte_offset(s, 0) == byte_offset(t, 0)) by {
            lemma_same_offsets(s, t, 0);
        }
    }
}

/// Identifiers come out in lower case: each character of the text is the
/// folded character read, and folds to itself. A word that starts with an
/// underscore is an identifier, with its underscore kept.
pub proof fn lemma_identifier_folded(st: LexState)
    requires
        0 <= st.index < st.input.len(),
    ensures
        ({
            let r = lex_step(st).0;
            let s = st.input;
            let i = st.index;
            let j = lex_step(st).1.index;
            let text = r->Ok_0.token->Ident_0;
            &&& (r is Ok && r->Ok_0.token is Ident) ==> {
                &&& text == fold_text(s.subrange(i, j))
                &&& text.len() > 0
                &&& forall|k: int| 0 <= k < text.len() ==> fold_char(#[trigger] text[k]) == text[k]
            }
            &&& s[i] == '_' ==> (r is Ok && r->Ok_0.token is Ident && text[0] == '_')
        }),
{
    let s = st.input;
    let i = st.index;
    if word_rule(st) is Some && first_rule(st) is None {
        lemma_scan_while_run(s, i + 1, ident_class());
        let j = scan_while(s, i, ident_class());
        let text = fold_text(s.subrange(i, j));
        assert(text[0] == fold_char(s[i]));
        if s[i] == '_' {
            assert(keyword_of(text) is None);
        }
    }
}

} // verus!
