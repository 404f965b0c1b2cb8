//! The scan cursor: the input as a sequence of characters plus a position.
//!
//! Every grammar production drives one of these.  The primitives offer
//! lookahead (`peek`), consumption (`take`), whitespace skipping and
//! literal matching; none of them ever rewinds.

use vstd::prelude::*;

use crate::json::error::Error;

verus! {

/// Whether `c` has the Unicode `White_Space` property, the set that
/// `char::is_whitespace` recognises.
pub open spec fn is_ws_char(c: char) -> bool {
    c == ' ' || c == '\t' || c == '\n' || c == '\r' || c == '\u{b}' || c == '\u{c}'
        || c == '\u{85}' || c == '\u{a0}' || c == '\u{1680}'
        || (c as u32 >= 0x2000 && c as u32 <= 0x200a)
        || c == '\u{2028}' || c == '\u{2029}' || c == '\u{202f}' || c == '\u{205f}'
        || c == '\u{3000}'
}

/// Executable test for [`is_ws_char`].
pub fn is_whitespace_char(c: char) -> (r: bool)
    ensures
        r == is_ws_char(c),
{
    c == ' ' || c == '\t' || c == '\n' || c == '\r' || c == '\u{b}' || c == '\u{c}'
        || c == '\u{85}' || c == '\u{a0}' || c == '\u{1680}'
        || (c as u32 >= 0x2000 && c as u32 <= 0x200a)
        || c == '\u{2028}' || c == '\u{2029}' || c == '\u{202f}' || c == '\u{205f}'
        || c == '\u{3000}'
}

/// The first position at or after `pos` that holds a non-whitespace
/// character, or the end of `s` if only whitespace remains.
pub open spec fn spec_skip_ws(s: Seq<char>, pos: int) -> int
    decreases s.len() - pos,
{
    if pos < 0 || pos >= s.len() {
        pos
    } else if is_ws_char(s[pos]) {
        spec_skip_ws(s, pos + 1)
    } else {
        pos
    }
}

/// Whitespace skipping moves the position forward, never past the end, only
/// over whitespace, and stops on a non-whitespace character.
pub proof fn lemma_skip_ws(s: Seq<char>, pos: int)
    requires
        0 <= pos <= s.len(),
    ensures
        pos <= spec_skip_ws(s, pos) <= s.len(),
        forall|i: int| pos <= i < spec_skip_ws(s, pos) ==> is_ws_char(s[i]),
        spec_skip_ws(s, pos) < s.len() ==> !is_ws_char(s[spec_skip_ws(s, pos)]),
    decreases s.len() - pos,
{
    if pos < s.len() && is_ws_char(s[pos]) {
        lemma_skip_ws(s, pos + 1);
    }
}

/// How many leading characters of `lit` match `s` starting at `pos`:
/// the length of the longest prefix of `lit` that appears there.
pub open spec fn lit_match_len(s: Seq<char>, pos: int, lit: Seq<char>) -> int
    decreases lit.len(),
{
    if lit.len() == 0 {
        0
    } else if 0 <= pos < s.len() && s[pos] == lit[0] {
        1 + lit_match_len(s, pos + 1, lit.drop_first())
    } else {
        0
    }
}

/// What [`State::read_char`] returns and where it leaves the cursor.
pub open spec fn spec_read_char(s: Seq<char>, pos: int, c: char) -> (bool, int) {
    let p = spec_skip_ws(s, pos);
    if p < s.len() && s[p] == c {
        (true, p + 1)
    } else {
        (false, p)
    }
}

/// What [`State::read_literal`] returns and where it leaves the cursor:
/// after skipping whitespace, the matched prefix of the literal is consumed,
/// whether or not the whole literal matched.
pub open spec fn spec_read_literal(s: Seq<char>, pos: int, lit: Seq<char>) -> (bool, int) {
    let p = spec_skip_ws(s, pos);
    if p >= s.len() {
        (false, p)
    } else {
        let k = lit_match_len(s, p, lit);
        (k == lit.len(), p + k)
    }
}

/// The scan cursor: the full input as characters, and a zero-based position.
pub struct State {
    content: Vec<char>,
    cursor: usize,
}

impl State {
    /// The input characters.
    pub closed spec fn chars(&self) -> Seq<char> {
        self.content@
    }

    /// The current scan position.
    pub closed spec fn pos(&self) -> int {
        self.cursor as int
    }

    /// The cursor never runs past the end of the input.
    pub open spec fn wf(&self) -> bool {
        0 <= self.pos() <= self.chars().len()
    }

    /// The error [`Self::error`] would report at the current position.
    pub open spec fn spec_error(&self) -> Error {
        if self.pos() >= self.chars().len() {
            Error::EndOfLine
        } else {
            Error::Character(self.pos() as usize)
        }
    }

    /// A fresh cursor at position 0 over the characters of `string`.
    pub fn new(string: &str) -> (r: Self)
        ensures
            r.wf(),
            r.chars() == string@,
            r.pos() == 0,
    {
        let n = string.unicode_len();
        let mut content: Vec<char> = Vec::new();
        let mut i: usize = 0;
        while i < n
            invariant
                i <= n,
                n == string@.len(),
                content@ =~= string@.subrange(0, i as int),
            decreases n - i,
        {
            content.push(string.get_char(i));
            i = i + 1;
        }
        proof {
            assert(content@ =~= string@);
        }
        State { content, cursor: 0 }
    }

    /// `EndOfLine` when the input is exhausted, else `Character` at the
    /// current position.
    pub fn error(&self) -> (r: Error)
        ensures
            r == self.spec_error(),
    {
        if self.at_end() {
            Error::EndOfLine
        } else {
            Error::Character(self.cursor)
        }
    }

    /// Whether the cursor has reached the end of the input.
    pub fn at_end(&self) -> (r: bool)
        ensures
            r == (self.pos() >= self.chars().len()),
    {
        self.cursor >= self.content.len()
    }

    /// The current position.
    pub fn cursor(&self) -> (r: usize)
        ensures
            r as int == self.pos(),
    {
        self.cursor
    }

    /// The character at the current position, without advancing.
    pub fn peek(&self) -> (r: Option<char>)
        ensures
            self.pos() < self.chars().len() ==> r == Some(self.chars()[self.pos()]),
            self.pos() >= self.chars().len() ==> r == None::<char>,
    {
        if self.cursor < self.content.len() {
            Some(self.content[self.cursor])
        } else {
            None
        }
    }

    /// The character at the current position, advancing past it; `None`
    /// (and no movement) at the end.
    pub fn take(&mut self) -> (r: Option<char>)
        requires
            old(self).wf(),
        ensures
            final(self).wf(),
            final(self).chars() == old(self).chars(),
            old(self).pos() < old(self).chars().len() ==> r == Some(
                old(self).chars()[old(self).pos()],
            ) && final(self).pos() == old(self).pos() + 1,
            old(self).pos() >= old(self).chars().len() ==> r == None::<char> && final(self).pos()
                == old(self).pos(),
    {
        if self.cursor < self.content.len() {
            let c = self.content[self.cursor];
            self.cursor = self.cursor + 1;
            Some(c)
        } else {
            None
        }
    }

    /// Advance past every consecutive whitespace character; return whether
    /// the cursor is then at the end of the input.
    pub fn skip_whitespace(&mut self) -> (r: bool)
        requires
            old(self).wf(),
        ensures
            final(self).wf(),
            final(self).chars() == old(self).chars(),
            final(self).pos() == spec_skip_ws(old(self).chars(), old(self).pos()),
            r == (final(self).pos() == final(self).chars().len()),
    {
        loop
            invariant_except_break
                self.wf(),
                self.chars() == old(self).chars(),
                0 <= self.pos(),
                spec_skip_ws(self.chars(), self.pos()) == spec_skip_ws(
                    old(self).chars(),
                    old(self).pos(),
                ),
            ensures
                self.wf(),
                self.chars() == old(self).chars(),
                self.pos() == spec_skip_ws(old(self).chars(), old(self).pos()),
            decreases self.chars().len() - self.pos(),
        {
            let go = match self.peek() {
                Some(c) => is_whitespace_char(c),
                None => false,
            };
            if !go {
                break ;
            }
            self.take();
        }
        self.at_end()
    }

    /// After skipping whitespace, consume `c` if it is the next character;
    /// whitespace stays consumed even when the match fails.
    pub fn read_char(&mut self, c: char) -> (r: bool)
        requires
            old(self).wf(),
        ensures
            final(self).wf(),
            final(self).chars() == old(self).chars(),
            r == spec_read_char(old(self).chars(), old(self).pos(), c).0,
            final(self).pos() == spec_read_char(old(self).chars(), old(self).pos(), c).1,
            final(self).pos() >= old(self).pos(),
            r ==> final(self).pos() > old(self).pos(),
    {
        proof {
            lemma_skip_ws(old(self).chars(), old(self).pos());
        }
        let mut result = false;
        if !self.skip_whitespace() {
            let matched = match self.peek() {
                Some(x) => x == c,
                None => false,
            };
            if matched {
                result = true;
                self.take();
            }
        }
        result
    }

    /// After skipping whitespace, match `lit` character by character,
    /// consuming every matched character; on a mismatch the characters
    /// already matched stay consumed and the result is `false`.
    pub fn read_literal(&mut self, lit: &str) -> (r: bool)
        requires
            old(self).wf(),
        ensures
            final(self).wf(),
            final(self).chars() == old(self).chars(),
            r == spec_read_literal(old(self).chars(), old(self).pos(), lit@).0,
            final(self).pos() == spec_read_literal(old(self).chars(), old(self).pos(), lit@).1,
            final(self).pos() >= old(self).pos(),
            r && lit@.len() > 0 ==> final(self).pos() > old(self).pos(),
    {
        proof {
            lemma_skip_ws(old(self).chars(), old(self).pos());
        }
        if self.skip_whitespace() {
            return false;
        }
        let ghost s = self.chars();
        let ghost p0 = self.pos();
        proof {
            assert(lit@.skip(0) =~= lit@);
        }
        let n = lit.unicode_len();
        let mut i: usize = 0;
        while i < n
            invariant
                self.wf(),
                s == old(self).chars(),
                p0 == spec_skip_ws(old(self).chars(), old(self).pos()),
                old(self).pos() <= p0,
                self.chars() == s,
                lit@.len() == n,
                i <= n,
                self.pos() == p0 + i,
                0 <= p0 <= s.len(),
                lit_match_len(s, p0, lit@) == i + lit_match_len(
                    s,
                    p0 + i,
                    lit@.skip(i as int),
                ),
            decreases n - i,
        {
            let c = lit.get_char(i);
            let matched = match self.peek() {
                Some(x) => x == c,
                None => false,
            };
            proof {
                lemma_lit_match_step(s, p0 + i, lit@.skip(i as int));
                assert(lit@.skip(i as int).drop_first() =~= lit@.skip(i as int + 1));
            }
            if !matched {
                proof {
                    assert(lit_match_len(s, p0 + i, lit@.skip(i as int)) == 0);
                }
                return false;
            }
            self.take();
            i = i + 1;
        }
        proof {
            assert(lit@.skip(n as int).len() == 0);
            assert(lit_match_len(s, p0 + n, lit@.skip(n as int)) == 0);
        }
        true
    }
}

/// Unfolding step for [`lit_match_len`]: when the first characters agree the
/// match is one longer than the match of the rest; otherwise it is empty.
proof fn lemma_lit_match_step(s: Seq<char>, pos: int, lit: Seq<char>)
    ensures
        lit.len() == 0 ==> lit_match_len(s, pos, lit) == 0,
        lit.len() > 0 && 0 <= pos < s.len() && s[pos] == lit[0] ==> lit_match_len(s, pos, lit) == 1
            + lit_match_len(s, pos + 1, lit.drop_first()),
        lit.len() > 0 && !(0 <= pos < s.len() && s[pos] == lit[0]) ==> lit_match_len(s, pos, lit)
            == 0,
{
}

} // verus!
