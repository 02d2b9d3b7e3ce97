//! A cursor over an immutable text that tracks byte positions.
use vstd::prelude::*;

use crate::text::{byte_offset, chars_of, push_char, text_width, utf8_width};
use crate::text::{lemma_byte_offset_mono, lemma_byte_offset_step, lemma_text_width_is_encoded_len};

verus! {

/// Index of the first character at or after `i` that `p` refuses, or the
/// length of `s` when there is none.
pub open spec fn scan_while(s: Seq<char>, i: int, p: spec_fn(char) -> bool) -> int
    decreases s.len() - i,
{
    if 0 <= i < s.len() && p(s[i]) {
        scan_while(s, i + 1, p)
    } else {
        i
    }
}

/// The end of a run is where the predicate first fails.
pub proof fn lemma_scan_while_stops(s: Seq<char>, i: int, j: int, p: spec_fn(char) -> bool)
    requires
        0 <= i <= j <= s.len(),
        forall|k: int| i <= k < j ==> p(#[trigger] s[k]),
        j == s.len() || !p(s[j]),
    ensures
        scan_while(s, i, p) == j,
    decreases j - i,
{
    if i < j {
        lemma_scan_while_stops(s, i + 1, j, p);
    }
}

/// A run accepts every character it covers, and stops inside the text.
pub proof fn lemma_scan_while_run(s: Seq<char>, i: int, p: spec_fn(char) -> bool)
    requires
        0 <= i <= s.len(),
    ensures
        i <= scan_while(s, i, p) <= s.len(),
        forall|k: int| i <= k < scan_while(s, i, p) ==> p(#[trigger] s[k]),
        scan_while(s, i, p) < s.len() ==> !p(s[scan_while(s, i, p)]),
    decreases s.len() - i,
{
    if i < s.len() && p(s[i]) {
        lemma_scan_while_run(s, i + 1, p);
    }
}

/// A read position over a text.
pub struct StringReader {
    /// The text being read.
    pub input: Vec<char>,
    /// Byte position of the character read last.
    pub prev_pos: usize,
    /// Byte position of the current character.
    pub curr_pos: usize,
    /// The current character, if any remains.
    pub curr_char: Option<char>,
    /// Index of the current character in `input`.
    pub index: usize,
}

impl StringReader {
    /// The position fields agree with the index into the text.
    pub open spec fn wf(&self) -> bool {
        &&& self.index <= self.input@.len()
        &&& text_width(self.input@) <= usize::MAX
        &&& self.input@.len() <= text_width(self.input@)
        &&& self.curr_pos == byte_offset(self.input@, self.index as int)
        &&& self.prev_pos <= self.curr_pos
        &&& self.curr_char == self.char_spec(self.index as int)
    }

    /// The character at index `i`, if there is one.
    pub open spec fn char_spec(&self, i: int) -> Option<char> {
        if 0 <= i < self.input@.len() {
            Some(self.input@[i])
        } else {
            None
        }
    }

    /// A reader at the start of `input`.
    pub fn new(input: &str) -> (r: StringReader)
        ensures
            r.wf(),
            r.input@ == input@,
            r.index == 0,
            r.curr_pos == 0,
            r.prev_pos == 0,
    {
        let chars = chars_of(input);
        let n_bytes = input.as_bytes().len();
        proof {
            lemma_text_width_is_encoded_len(input@);
            lemma_byte_offset_mono(input@, 0, input@.len() as int);
            assert(chars@.subrange(0, 0) =~= Seq::<char>::empty());
        }
        let first = if chars.len() > 0 {
            Some(chars[0])
        } else {
            None
        };
        StringReader { input: chars, prev_pos: 0, curr_pos: 0, curr_char: first, index: 0 }
    }

    /// True when no input is left to read.
    pub fn is_eof(&self) -> (r: bool)
        requires
            self.wf(),
        ensures
            r == (self.index == self.input@.len()),
    {
        self.curr_char.is_none()
    }

    /// True when the current character is a newline.
    pub fn is_eol(&self) -> (r: bool)
        requires
            self.wf(),
        ensures
            r == (self.curr_char == Some('\n')),
    {
        match self.curr_char {
            Some(c) => c == '\n',
            None => false,
        }
    }

    /// Moves past the current character; at the end only `prev_pos` moves,
    /// to the current position.
    pub fn advance(&mut self)
        requires
            old(self).wf(),
        ensures
            final(self).wf(),
            final(self).input@ == old(self).input@,
            final(self).prev_pos == old(self).curr_pos,
            final(self).index == if old(self).index < old(self).input@.len() {
                old(self).index + 1
            } else {
                old(self).index as int
            },
    {
        self.prev_pos = self.curr_pos;
        if let Some(c) = self.curr_char {
            proof {
                lemma_byte_offset_step(self.input@, self.index as int);
                lemma_byte_offset_mono(self.input@, self.index + 1, self.input@.len() as int);
            }
            self.curr_pos = self.curr_pos + utf8_width(c);
            self.index = self.index + 1;
        }
        self.curr_char = self.char_at(self.index);
    }

    /// Advances while `test` accepts the current character.
    pub fn advance_while<F: Fn(char) -> bool>(&mut self, test: F)
        requires
            old(self).wf(),
            forall|c: char| test.requires((c,)),
        ensures
            final(self).wf(),
            final(self).input@ == old(self).input@,
            old(self).index <= final(self).index,
            forall|k: int|
                old(self).index <= k < final(self).index ==> test.ensures(
                    (#[trigger] old(self).input@[k],),
                    true,
                ),
            final(self).index < final(self).input@.len() ==> test.ensures(
                (final(self).input@[final(self).index as int],),
                false,
            ),
            final(self).index == old(self).index ==> final(self).prev_pos == old(self).prev_pos,
            final(self).index > old(self).index ==> final(self).prev_pos == byte_offset(
                old(self).input@,
                final(self).index - 1,
            ),
    {
        let ghost start = self.index;
        let ghost start_prev = self.prev_pos;
        while self.curr_char.is_some() && test(self.curr_char.unwrap())
            invariant
                self.wf(),
                self.input@ == old(self).input@,
                forall|c: char| test.requires((c,)),
                start == old(self).index,
                start <= self.index,
                forall|k: int| start <= k < self.index ==> test.ensures((#[trigger] self.input@[k],), true),
                self.index == start ==> self.prev_pos == start_prev,
                self.index > start ==> self.prev_pos == byte_offset(self.input@, self.index - 1),
            decreases self.input@.len() - self.index,
        {
            proof {
                assert(test.ensures((self.input@[self.index as int],), true));
            }
            self.advance();
        }
    }

    /// Moves the position forward by `n_bytes`, which must land on the start
    /// of a character or on the end of the text.
    pub fn advance_bytes(&mut self, n_bytes: usize)
        requires
            old(self).wf(),
            exists|k: int|
                old(self).index <= k <= old(self).input@.len() && byte_offset(old(self).input@, k)
                    == old(self).curr_pos + n_bytes,
        ensures
            final(self).wf(),
            final(self).input@ == old(self).input@,
            final(self).prev_pos == old(self).curr_pos,
            final(self).curr_pos == old(self).curr_pos + n_bytes,
    {
        let ghost k = choose|k: int|
            old(self).index <= k <= old(self).input@.len() && byte_offset(old(self).input@, k)
                == old(self).curr_pos + n_bytes;
        proof {
            lemma_byte_offset_mono(self.input@, k, self.input@.len() as int);
        }
        let target: usize = self.curr_pos + n_bytes;
        let start: usize = self.curr_pos;
        while self.curr_pos < target
            invariant
                self.wf(),
                self.input@ == old(self).input@,
                self.index <= k <= self.input@.len(),
                byte_offset(self.input@, k) == target,
                start <= self.curr_pos <= target,
            decreases self.input@.len() - self.index,
        {
            proof {
                if self.index == k {
                    assert(false);
                }
                lemma_byte_offset_step(self.input@, self.index as int);
                if self.index + 1 < k {
                    lemma_byte_offset_mono(self.input@, self.index + 1, k);
                }
            }
            self.advance();
        }
        proof {
            if self.index < k {
                lemma_byte_offset_mono(self.input@, self.index as int, k);
            }
        }
        self.prev_pos = start;
    }

    /// The character after the current one, without moving.
    pub fn peek_next(&self) -> (r: Option<char>)
        requires
            self.wf(),
        ensures
            r == self.char_spec(self.index + 1),
    {
        if self.curr_char.is_some() {
            self.char_at(self.index + 1)
        } else {
            None
        }
    }

    /// True when the current character is `c`.
    pub fn curr_is(&self, c: char) -> (r: bool)
        requires
            self.wf(),
        ensures
            r == (self.curr_char == Some(c)),
    {
        self.curr_char.is_some() && self.curr_char.unwrap() == c
    }

    /// True when the character after the current one is `c`.
    pub fn next_is(&self, c: char) -> (r: bool)
        requires
            self.wf(),
        ensures
            r == (self.char_spec(self.index + 1) == Some(c)),
    {
        let next_char = self.peek_next();
        next_char.is_some() && next_char.unwrap() == c
    }

    /// Reads up to the next newline and moves past it; returns the text read,
    /// without the newline.
    pub fn read_line(&mut self) -> (r: String)
        requires
            old(self).wf(),
        ensures
            ({
                let s = old(self).input@;
                let k = scan_while(s, old(self).index as int, |c: char| c != '\n');
                &&& final(self).wf()
                &&& final(self).input@ == s
                &&& r@ == s.subrange(old(self).index as int, k)
                &&& final(self).index == if k < s.len() {
                    k + 1
                } else {
                    k
                }
                &&& final(self).prev_pos == byte_offset(s, k)
            }),
    {
        let mut s = String::new();
        let ghost start = self.index;
        while !self.is_eof() && !self.is_eol()
            invariant
                self.wf(),
                self.input@ == old(self).input@,
                start == old(self).index,
                start <= self.index,
                s@ == self.input@.subrange(start as int, self.index as int),
                forall|k: int| start <= k < self.index ==> #[trigger] self.input@[k] != '\n',
            decreases self.input@.len() - self.index,
        {
            let c = self.curr_char.unwrap();
            push_char(&mut s, c);
            self.advance();
            assert(s@ =~= self.input@.subrange(start as int, self.index as int));
        }
        proof {
            lemma_scan_while_stops(self.input@, start as int, self.index as int, |c: char| c != '\n');
        }
        self.advance();
        s
    }

    /// Reads the run of characters that `test` accepts, from the current one on.
    pub fn read_while<F: Fn(char) -> bool>(&mut self, test: F) -> (r: String)
        requires
            old(self).wf(),
            forall|c: char| test.requires((c,)),
        ensures
            final(self).wf(),
            final(self).input@ == old(self).input@,
            old(self).index <= final(self).index,
            r@ == old(self).input@.subrange(old(self).index as int, final(self).index as int),
            forall|k: int|
                old(self).index <= k < final(self).index ==> test.ensures(
                    (#[trigger] old(self).input@[k],),
                    true,
                ),
            final(self).index < final(self).input@.len() ==> test.ensures(
                (final(self).input@[final(self).index as int],),
                false,
            ),
            final(self).index == old(self).index ==> final(self).prev_pos == old(self).prev_pos,
            final(self).index > old(self).index ==> final(self).prev_pos == byte_offset(
                old(self).input@,
                final(self).index - 1,
            ),
    {
        let mut s = String::new();
        let ghost start = self.index;
        let ghost start_prev = self.prev_pos;
        while self.curr_char.is_some() && test(self.curr_char.unwrap())
            invariant
                self.wf(),
                self.input@ == old(self).input@,
                forall|c: char| test.requires((c,)),
                start == old(self).index,
                start <= self.index,
                s@ == self.input@.subrange(start as int, self.index as int),
                forall|k: int| start <= k < self.index ==> test.ensures((#[trigger] self.input@[k],), true),
                self.index == start ==> self.prev_pos == start_prev,
                self.index > start ==> self.prev_pos == byte_offset(self.input@, self.index - 1),
            decreases self.input@.len() - self.index,
        {
            proof {
                assert(test.ensures((self.input@[self.index as int],), true));
            }
            let c = self.curr_char.unwrap();
            push_char(&mut s, c);
            self.advance();
            assert(s@ =~= self.input@.subrange(start as int, self.index as int));
        }
        s
    }

    /// The character at index `i`, if there is one.
    fn char_at(&self, i: usize) -> (r: Option<char>)
        ensures
            r == self.char_spec(i as int),
    {
        if i < self.input.len() {
            Some(self.input[i])
        } else {
            None
        }
    }
}

} // verus!
