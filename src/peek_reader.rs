//! A reader that decodes UTF-8 bytes on demand and lets its caller look a few
//! characters ahead of, and behind, the next one to be consumed.

use crate::chars::{bytes_to_char, CharErrorEnum};
use crate::pos::{byte_count, lemma_byte_count_append, lemma_line_col_bounded, lemma_step_after, Position};
use vstd::prelude::*;
use vstd::slice::slice_subrange;
use vstd::string::StringSliceAdditionalSpecFns;
use vstd::utf8::*;

verus! {

/// How far `peek` may look ahead of the next character.
pub const PEEK_AHEAD: isize = 4;

/// How far `peek` may look behind the next character: -1 is the last one consumed.
pub const PEEK_BEHIND: isize = -4;

/// The characters that the longest well-formed UTF-8 prefix of `b` encodes.
pub open spec fn decoded(b: Seq<u8>) -> Seq<char>
    decreases b.len(),
{
    if b.len() > 0 && valid_first_scalar(b) {
        seq![decode_first_scalar(b) as char] + decoded(pop_first_scalar(b))
    } else {
        Seq::empty()
    }
}

/// On well-formed UTF-8 the reader's stream is the whole decoded text.
pub proof fn lemma_decoded_valid(b: Seq<u8>)
    requires
        valid_utf8(b),
    ensures
        decoded(b) == decode_utf8(b),
    decreases b.len(),
{
    if b.len() > 0 {
        lemma_decoded_valid(pop_first_scalar(b));
    }
}

/// Each character takes at least one byte.
pub proof fn lemma_decoded_len(b: Seq<u8>)
    ensures
        decoded(b).len() <= b.len(),
    decreases b.len(),
{
    if b.len() > 0 && valid_first_scalar(b) {
        lemma_decoded_len(pop_first_scalar(b));
    }
}

/// The character at index `i` of `s`, or NUL outside it.
pub open spec fn char_at(s: Seq<char>, i: int) -> char {
    if 0 <= i < s.len() {
        s[i]
    } else {
        '\0'
    }
}

/// Reads characters from a byte buffer, decoding them only as they are needed.
pub struct PeekReader {
    src: Vec<u8>,
    next_byte: usize,
    ahead: Vec<char>,
    behind: Vec<char>,
    pos: Position,
    error: Option<CharErrorEnum>,
    done: bool,
    consumed: Ghost<Seq<char>>,
}

impl PeekReader {
    /// The characters that the input encodes, up to the first malformed byte.
    pub closed spec fn stream(&self) -> Seq<char> {
        decoded(self.src@)
    }

    /// The input bytes.
    pub closed spec fn bytes(&self) -> Seq<u8> {
        self.src@
    }

    /// How many characters have been consumed.
    pub closed spec fn index(&self) -> nat {
        self.consumed@.len()
    }

    /// The position after the consumed characters.
    pub closed spec fn position(&self) -> Position {
        self.pos
    }

    /// The decoding error met, if decoding has reached a malformed byte.
    pub closed spec fn decode_error(&self) -> Option<CharErrorEnum> {
        self.error
    }

    closed spec fn rest(&self) -> Seq<u8> {
        self.src@.subrange(self.next_byte as int, self.src@.len() as int)
    }

    pub closed spec fn wf(&self) -> bool {
        &&& self.next_byte <= self.src@.len() < usize::MAX
        &&& decoded(self.src@) == self.consumed@ + self.ahead@ + decoded(self.rest())
        &&& self.done ==> decoded(self.rest()) == Seq::<char>::empty()
        &&& self.error is Some ==> self.done
        &&& valid_utf8(self.src@) ==> valid_utf8(self.rest()) && self.error is None
        &&& self.ahead@.len() <= 5
        &&& self.pos.is_after(self.consumed@)
        &&& self.pos.byte + byte_count(self.ahead@) == self.next_byte
        &&& self.behind@.len() == 4
        &&& forall|k: int|
            0 <= k < 4 ==> #[trigger] self.behind@[k] == char_at(
                self.consumed@,
                self.consumed@.len() - 4 + k,
            )
    }

    /// Facts that hold of every well-formed reader.
    pub proof fn lemma_wf(&self)
        requires
            self.wf(),
        ensures
            self.index() <= self.stream().len(),
            self.position().is_after(self.stream().take(self.index() as int)),
            self.bytes().len() < usize::MAX,
            self.stream().len() <= self.bytes().len(),
            valid_utf8(self.bytes()) ==> self.decode_error() is None,
    {
        lemma_decoded_len(self.src@);
        assert(self.stream().take(self.index() as int) =~= self.consumed@);
    }

    /// The stream is what the bytes decode to.
    pub proof fn lemma_stream(&self)
        ensures
            self.stream() == decoded(self.bytes()),
    {
    }

    /// A reader over `src`, positioned before its first character.
    pub fn new(src: Vec<u8>) -> (r: PeekReader)
        requires
            src@.len() < usize::MAX,
        ensures
            r.wf(),
            r.bytes() == src@,
            r.stream() == decoded(src@),
            r.index() == 0,
            r.position() == (Position { byte: 0, line: 1, col: 0 }),
    {
        let r = PeekReader {
            src: src,
            next_byte: 0,
            ahead: Vec::new(),
            behind: vec!['\0', '\0', '\0', '\0'],
            pos: Position::new(),
            error: None,
            done: false,
            consumed: Ghost(Seq::empty()),
        };
        assert(r.rest() =~= r.src@);
        assert(r.consumed@ + r.ahead@ + decoded(r.rest()) =~= decoded(r.src@));
        r
    }

    /// A reader over the UTF-8 encoding of `s`.
    pub fn from_str(s: &str) -> (r: PeekReader)
        requires
            s.spec_bytes().len() < usize::MAX,
        ensures
            r.wf(),
            r.bytes() == s.spec_bytes(),
            r.index() == 0,
            r.position() == (Position { byte: 0, line: 1, col: 0 }),
    {
        PeekReader::new(vstd::slice::slice_to_vec(s.as_bytes()))
    }

    /// The position after the consumed characters.
    pub fn get_pos(&self) -> (r: Position)
        requires
            self.wf(),
        ensures
            r == self.position(),
            r.is_after(self.stream().take(self.index() as int)),
    {
        proof {
            self.lemma_wf();
        }
        self.pos
    }

    /// The decoding error met so far, if any. Once there is one, the reader acts as
    /// if the input ended before the malformed byte.
    pub fn get_error(&self) -> (r: &Option<CharErrorEnum>)
        ensures
            *r == self.decode_error(),
    {
        &self.error
    }

    /// Decodes until `want` characters lie ahead, or the input is used up.
    fn fill(&mut self, want: usize)
        requires
            old(self).wf(),
            want <= 5,
        ensures
            final(self).wf(),
            final(self).stream() == old(self).stream(),
            final(self).bytes() == old(self).bytes(),
            final(self).consumed@ == old(self).consumed@,
            final(self).pos == old(self).pos,
            final(self).behind@ == old(self).behind@,
            final(self).ahead@.len() >= want || final(self).done,
            old(self).ahead@.len() >= want ==> final(self).ahead@ == old(self).ahead@,
            old(self).ahead@.len() < want ==> old(self).ahead@.is_prefix_of(final(self).ahead@),
            final(self).error is Some ==> final(self).error == old(self).error || old(self).error is None,
    {
        while self.ahead.len() < want && !self.done
            invariant
                self.wf(),
                want <= 5,
                self.src@ == old(self).src@,
                self.consumed@ == old(self).consumed@,
                self.pos == old(self).pos,
                self.behind@ == old(self).behind@,
                old(self).ahead@.len() >= want ==> self.ahead@ == old(self).ahead@,
                old(self).ahead@.is_prefix_of(self.ahead@),
                old(self).error is Some ==> self.error == old(self).error,
                self.error is Some ==> self.error == old(self).error || old(self).error is None,
            decreases self.src@.len() - self.next_byte, if self.done { 0int } else { 1int },
        {
            let len = self.src.len();
            let ghost rest = self.rest();
            if self.next_byte == len {
                self.done = true;
                assert(rest =~= Seq::<u8>::empty());
            } else {
                let tail = slice_subrange(self.src.as_slice(), self.next_byte, len);
                assert(tail@ =~= rest);
                match bytes_to_char(tail) {
                    Ok((c, n)) => {
                        proof {
                            vstd::utf8::char_u32_cast(c, decode_first_scalar(rest));
                            assert(pop_first_scalar(rest) =~= self.src@.subrange(
                                self.next_byte + n,
                                len as int,
                            ));
                            assert(decoded(rest) == seq![c] + decoded(pop_first_scalar(rest)));
                            lemma_byte_count_append(self.ahead@, seq![c]);
                            assert(seq![c].drop_last() =~= Seq::<char>::empty());
                            assert(seq![c].last() == c);
                            assert(byte_count(Seq::<char>::empty()) == 0);
                            assert(byte_count(seq![c]) == crate::pos::utf8_len(c));
                        }
                        let ghost old_ahead = self.ahead@;
                        self.ahead.push(c);
                        self.next_byte = self.next_byte + n;
                        proof {
                            assert(self.ahead@ =~= old_ahead + seq![c]);
                            assert(self.pos.byte + byte_count(self.ahead@) == self.next_byte);
                            assert(self.consumed@ + self.ahead@ + decoded(self.rest()) =~= self.consumed@
                                + old_ahead + (seq![c] + decoded(self.rest())));
                        }
                    },
                    Err(e) => {
                        assert(!valid_first_scalar(rest));
                        assert(!valid_utf8(self.src@));
                        assert(decoded(rest) =~= Seq::<char>::empty());
                        self.error = Some(e);
                        self.done = true;
                    },
                }
            }
        }
    }

    /// The character `dist` places from the next one to be consumed: 0 is that next
    /// character, -1 the last one consumed. Outside the input it is NUL.
    pub fn peek(&mut self, dist: isize) -> (r: char)
        requires
            old(self).wf(),
            PEEK_BEHIND <= dist <= PEEK_AHEAD,
        ensures
            final(self).wf(),
            final(self).stream() == old(self).stream(),
            final(self).bytes() == old(self).bytes(),
            final(self).index() == old(self).index(),
            final(self).position() == old(self).position(),
            r == char_at(old(self).stream(), old(self).index() + dist),
            final(self).decode_error() is Some ==> (final(self).decode_error() == old(self).decode_error() || old(self).decode_error() is None),
    {
        proof {
            self.lemma_wf();
        }
        if dist < 0 {
            let k = (4 + dist) as usize;
            assert(char_at(self.consumed@, self.consumed@.len() - 4 + k) == char_at(
                self.stream(),
                self.index() + dist,
            ));
            self.behind[k]
        } else {
            let want = (dist + 1) as usize;
            self.fill(want);
            if self.ahead.len() >= want {
                let c = self.ahead[want - 1];
                assert(self.stream()[self.index() + want - 1] == self.ahead@[want - 1]);
                c
            } else {
                assert(self.stream() =~= self.consumed@ + self.ahead@);
                '\0'
            }
        }
    }

    /// The characters `peek` gives for each distance from `from` to `to`, both included.
    pub fn peek_string(&mut self, from: isize, to: isize) -> (r: String)
        requires
            old(self).wf(),
            PEEK_BEHIND <= from <= to <= PEEK_AHEAD,
        ensures
            final(self).wf(),
            final(self).stream() == old(self).stream(),
            final(self).bytes() == old(self).bytes(),
            final(self).index() == old(self).index(),
            final(self).position() == old(self).position(),
            r@ == Seq::new(
                (to - from + 1) as nat,
                |i: int| char_at(old(self).stream(), old(self).index() + from + i),
            ),
    {
        let mut r = String::new();
        let mut d = from;
        while d <= to
            invariant
                self.wf(),
                self.stream() == old(self).stream(),
                self.bytes() == old(self).bytes(),
                self.index() == old(self).index(),
                self.position() == old(self).position(),
                PEEK_BEHIND <= from <= d <= to + 1,
                to <= PEEK_AHEAD,
                r@ == Seq::new(
                    (d - from) as nat,
                    |i: int| char_at(old(self).stream(), old(self).index() + from + i),
                ),
            decreases to - d + 1,
        {
            let c = self.peek(d);
            crate::text::push_char(&mut r, c);
            d = d + 1;
            assert(r@ =~= Seq::new(
                (d - from) as nat,
                |i: int| char_at(old(self).stream(), old(self).index() + from + i),
            ));
        }
        r
    }

    /// Consumes the next character and returns it; at the end of the stream it returns
    /// NUL and consumes nothing.
    pub fn pop(&mut self) -> (r: char)
        requires
            old(self).wf(),
        ensures
            final(self).wf(),
            final(self).stream() == old(self).stream(),
            final(self).bytes() == old(self).bytes(),
            r == char_at(old(self).stream(), old(self).index() as int),
            old(self).index() < old(self).stream().len() ==> final(self).index() == old(self).index() + 1,
            old(self).index() >= old(self).stream().len() ==> final(self).index() == old(self).index()
                && final(self).position() == old(self).position(),
            final(self).decode_error() is Some ==> (final(self).decode_error() == old(self).decode_error() || old(self).decode_error() is None),
    {
        proof {
            self.lemma_wf();
        }
        self.fill(1);
        let ghost filled = self.ahead@;
        if self.ahead.len() == 0 {
            assert(self.stream() =~= self.consumed@);
            return '\0';
        }
        let c = self.ahead.remove(0);
        let ghost old_consumed = self.consumed@;
        assert(self.stream()[self.index() as int] == c);
        proof {
            lemma_byte_count_append(seq![c], self.ahead@);
            assert(filled =~= seq![c] + self.ahead@);
            assert(seq![c].drop_last() =~= Seq::<char>::empty());
            assert(seq![c].last() == c);
            assert(byte_count(Seq::<char>::empty()) == 0);
            assert(byte_count(seq![c]) == crate::pos::utf8_len(c));
            lemma_byte_count_append(old_consumed, seq![c]);
            assert(old_consumed + seq![c] =~= old_consumed.push(c));
            lemma_line_col_bounded(old_consumed);
        }
        self.pos.step(c);
        proof {
            lemma_step_after(old(self).pos, self.pos, old_consumed, c);
            self.consumed = Ghost(old_consumed.push(c));
            assert(self.consumed@ + self.ahead@ + decoded(self.rest()) =~= old_consumed + (seq![c]
                + self.ahead@) + decoded(self.rest()));
        }
        self.behind.remove(0);
        self.behind.push(c);
        assert forall|k: int| 0 <= k < 4 implies #[trigger] self.behind@[k] == char_at(
            self.consumed@,
            self.consumed@.len() - 4 + k,
        ) by {
            if k < 3 {
                assert(self.behind@[k] == old(self).behind@[k + 1]);
            }
        }
        c
    }
}

} // verus!
