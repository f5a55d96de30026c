//! The tokenizer: a state machine that cuts the input into tokens, losing nothing.

use crate::chars::{is_whitespace, white_space};
use crate::errors::ParserError;
use crate::peek_reader::{char_at, lemma_decoded_valid, PeekReader};
use crate::pos::{byte_count, lemma_byte_count_append, lemma_byte_count_len, Position, Span};
use crate::text::push_char;
use crate::token::{AttrValue, RawToken};
use vstd::prelude::*;
use vstd::utf8::{decode_utf8, valid_utf8};

pub use crate::delimited::{parse_code_block, parse_math, parse_text_marker, parse_whitespace};
pub use crate::inline_text::parse_inline_text;
use crate::inline_text::tag_delimiter;
pub use crate::names::{parse_attr_name, parse_tag};
pub use crate::values::{parse_numeric_value, parse_string_value, TextEscapeState};

verus! {

/// What the tokenizer reads next.
#[derive(Debug, Clone, Copy, PartialEq, Eq, Structural)]
pub enum Mode {
    Default,
    StartOfInput,
    CodeBlock,
    TextMarker,
    WhitespaceAttrName,
    Tag,
    InlineText,
    Math,
    AttributeName,
    NumericValue,
    StringValue,
}

/// Which kind of tag the tokenizer is inside of, if any.
#[derive(Debug, Clone, Copy, PartialEq, Eq, Structural)]
pub enum TagContext {
    NotTag,
    CurlyTag,
    PointyTag,
}

/// The tokenizer's state between two tokens.
#[derive(Debug, Clone, Copy, PartialEq, Eq, Structural)]
pub struct State {
    pub mode: Mode,
    pub inside_tag: TagContext,
}

impl State {
    pub fn new() -> (r: State)
        ensures
            r.mode == Mode::StartOfInput,
            r.inside_tag == TagContext::NotTag,
    {
        State { mode: Mode::StartOfInput, inside_tag: TagContext::NotTag }
    }
}

/// The reader `b` is `a` moved forward over the same stream.
pub open spec fn moved_on(a: PeekReader, b: PeekReader) -> bool {
    &&& b.wf()
    &&& b.stream() == a.stream()
    &&& b.bytes() == a.bytes()
    &&& a.index() <= b.index()
}

/// `raw` is exactly what the reader consumed since index `from`.
pub open spec fn read_since(src: PeekReader, from: nat, raw: Seq<char>) -> bool {
    &&& from <= src.index() <= src.stream().len()
    &&& raw == src.stream().subrange(from as int, src.index() as int)
}

/// A sub-parser's outcome: the reader moved on, and a token holds exactly the
/// characters consumed for it.
pub open spec fn token_read(a: PeekReader, b: PeekReader, r: Result<RawToken, ParserError>) -> bool {
    &&& moved_on(a, b)
    &&& !(r matches Err(ParserError::EndOfInput))
    &&& !(r matches Err(ParserError::MismatchedEnd(_, _)))
    &&& r matches Ok(t) ==> t.raw_view() == a.stream().subrange(a.index() as int, b.index() as int)
}

/// The next character of the reader, or NUL at the end.
pub open spec fn next_char(src: PeekReader) -> char {
    char_at(src.stream(), src.index() as int)
}

/// Consumes the next character, which must not be the end, into `raw`.
pub(crate) fn take(src: &mut PeekReader, raw: &mut String, Ghost(from): Ghost<nat>) -> (c: char)
    requires
        old(src).wf(),
        read_since(*old(src), from, old(raw)@),
        next_char(*old(src)) != '\0',
    ensures
        moved_on(*old(src), *final(src)),
        final(src).index() == old(src).index() + 1,
        c == next_char(*old(src)),
        final(raw)@ == old(raw)@.push(c),
        read_since(*final(src), from, final(raw)@),
{
    proof {
        old(src).lemma_wf();
    }
    let c = src.pop();
    push_char(raw, c);
    assert(src.stream().subrange(from as int, src.index() as int) =~= old(src).stream().subrange(
        from as int,
        old(src).index() as int,
    ).push(c));
    c
}

/// Consumes the next character, which must not be the end, without keeping it.
pub(crate) fn skip(src: &mut PeekReader) -> (c: char)
    requires
        old(src).wf(),
        next_char(*old(src)) != '\0',
    ensures
        moved_on(*old(src), *final(src)),
        final(src).index() == old(src).index() + 1,
        c == next_char(*old(src)),
{
    proof {
        old(src).lemma_wf();
    }
    src.pop()
}



/// The mode to read the next token in, from the mode of the last one, whether the
/// tokenizer is inside a tag, the next character `c`, and whether a run of three
/// backticks starts there. `None` where `c` cannot follow the last token.
pub open spec fn dispatch(mode: Mode, inside: TagContext, c: char, fence: bool) -> Option<Mode> {
    let from_default = if tag_delimiter(c) {
        Mode::Tag
    } else if c == '$' {
        Mode::Math
    } else if fence {
        Mode::CodeBlock
    } else {
        Mode::InlineText
    };
    match mode {
        Mode::StartOfInput | Mode::Default | Mode::TextMarker | Mode::InlineText | Mode::CodeBlock
        | Mode::Math => Some(from_default),
        Mode::Tag => if c == ';' && inside != TagContext::NotTag {
            Some(Mode::TextMarker)
        } else if tag_delimiter(c) {
            Some(Mode::Tag)
        } else if fence {
            Some(Mode::CodeBlock)
        } else if white_space(c) && inside != TagContext::NotTag {
            Some(Mode::WhitespaceAttrName)
        } else {
            Some(from_default)
        },
        Mode::WhitespaceAttrName => if c == ';' {
            Some(Mode::TextMarker)
        } else if c == '}' || c == '|' || c == '>' {
            Some(Mode::Tag)
        } else {
            Some(Mode::AttributeName)
        },
        Mode::AttributeName => if '0' <= c && c <= '9' {
            Some(Mode::NumericValue)
        } else if c == '"' {
            Some(Mode::StringValue)
        } else {
            None
        },
        Mode::NumericValue | Mode::StringValue => if c == ';' {
            Some(Mode::TextMarker)
        } else if c == '}' || c == '>' || c == '|' {
            Some(Mode::Tag)
        } else if white_space(c) {
            Some(Mode::WhitespaceAttrName)
        } else {
            None
        },
    }
}

/// Chooses the mode for the next token, as `dispatch` says.
pub fn next_state(src: &mut PeekReader, state: &mut State) -> (r: Option<ParserError>)
    requires
        old(src).wf(),
    ensures
        final(src).wf(),
        final(src).stream() == old(src).stream(),
        final(src).bytes() == old(src).bytes(),
        final(src).index() == old(src).index(),
        final(src).position() == old(src).position(),
        final(state).inside_tag == old(state).inside_tag,
        ({
            let c = next_char(*old(src));
            let fence = c == '`' && char_at(old(src).stream(), old(src).index() + 1int) == '`'
                && char_at(old(src).stream(), old(src).index() + 2int) == '`';
            match dispatch(old(state).mode, old(state).inside_tag, c, fence) {
                Some(m) => r is None && final(state).mode == m,
                None => r matches Some(ParserError::IllegalChar2(_, _, _)),
            }
        }),
{
    let c = src.peek(0);
    let next_three = src.peek_string(0, 2);
    let fence_text = crate::text::owned("```");
    proof {
        reveal_strlit("```");
        assert(fence_text@ =~= seq!['`', '`', '`']);
    }
    let fence = next_three == fence_text;
    proof {
        if fence {
            assert(next_three@[0] == '`' && next_three@[1] == '`' && next_three@[2] == '`');
        } else {
            assert(!(next_three@ =~= seq!['`', '`', '`']));
        }
    }
    let inside = state.inside_tag;
    let delim = c == '{' || c == '}' || c == '<' || c == '>' || c == '|';
    let from_default = if delim {
        Mode::Tag
    } else if c == '$' {
        Mode::Math
    } else if fence {
        Mode::CodeBlock
    } else {
        Mode::InlineText
    };
    let next = match state.mode {
        Mode::StartOfInput | Mode::Default | Mode::TextMarker | Mode::InlineText | Mode::CodeBlock
        | Mode::Math => from_default,
        Mode::Tag => if c == ';' && inside != TagContext::NotTag {
            Mode::TextMarker
        } else if delim {
            Mode::Tag
        } else if fence {
            Mode::CodeBlock
        } else if is_whitespace(c) && inside != TagContext::NotTag {
            Mode::WhitespaceAttrName
        } else {
            from_default
        },
        Mode::WhitespaceAttrName => if c == ';' {
            Mode::TextMarker
        } else if c == '}' || c == '|' || c == '>' {
            Mode::Tag
        } else {
            Mode::AttributeName
        },
        Mode::AttributeName => if '0' <= c && c <= '9' {
            Mode::NumericValue
        } else if c == '"' {
            Mode::StringValue
        } else {
            let pos = src.get_pos();
            return Some(
                ParserError::IllegalChar2(
                    pos,
                    c,
                    vec!['"', '0', '1', '2', '3', '4', '5', '6', '7', '8', '9'],
                ),
            );
        },
        Mode::NumericValue | Mode::StringValue => if c == ';' {
            Mode::TextMarker
        } else if c == '}' || c == '>' || c == '|' {
            Mode::Tag
        } else if is_whitespace(c) {
            Mode::WhitespaceAttrName
        } else {
            let pos = src.get_pos();
            return Some(ParserError::IllegalChar2(pos, c, vec![';', '}', '|', '>', ' ', '\n', '\t']));
        },
    };
    state.mode = next;
    None
}

/// The token that the sub-parser for mode `m` returns, having read from `a` to `b`
/// inside the tag context `inside`, which becomes `inside2`.
pub open spec fn mode_token(
    m: Mode,
    a: PeekReader,
    b: PeekReader,
    inside: TagContext,
    inside2: TagContext,
    t: RawToken,
) -> bool {
    let s = a.stream().subrange(a.index() as int, b.index() as int);
    let c = next_char(a);
    let c1 = char_at(a.stream(), a.index() + 1int);
    let d = next_char(b);
    match m {
        Mode::TextMarker => inside2 == inside && (t matches RawToken::TextMarker(_, x) && x == ';'),
        Mode::WhitespaceAttrName => inside2 == inside && (t matches RawToken::Whitespace(_, raw, val)
            && (forall|i: int| 0 <= i < raw@.len() ==> white_space(#[trigger] raw@[i])) && !white_space(d)
            && val@ == (if crate::delimited::has_line_break(raw@) {
            Seq::<char>::empty()
        } else {
            seq![' ']
        })),
        Mode::Math => inside2 == inside && ((c1 != '$' && (t matches RawToken::InlineMathText(_, raw, val)
            && raw@ == seq!['$'] + val@ + seq!['$'] && forall|i: int|
            0 <= i < val@.len() ==> #[trigger] val@[i] != '$')) || (c1 == '$'
            && (t matches RawToken::DisplayMathText(_, raw, val) && raw@ == seq!['$', '$'] + val@ + seq![
            '$',
            '$',
        ] && forall|i: int| 0 <= i < val@.len() - 1 ==> !(#[trigger] val@[i] == '$' && val@[i + 1] == '$')))),
        Mode::CodeBlock => inside2 == inside && d != '`' && (t matches RawToken::CodeBlock(_, raw, lang, content)
            && crate::delimited::code_block_shape(raw@, lang@, content@)),
        Mode::Tag => if c == '}' {
            inside2 == TagContext::NotTag && (t matches RawToken::CurlyTagEnd(_, x) && x == '}')
        } else if c == '>' {
            inside2 == TagContext::NotTag && (t matches RawToken::PointyTagTail(_, raw, name) && raw@ == seq![
                '>',
            ] && name.spec_is_empty())
        } else if c == '|' && inside == TagContext::PointyTag {
            inside2 == TagContext::NotTag && (t matches RawToken::TextMarker(_, x) && x == '|')
        } else if c == '{' {
            inside2 == TagContext::CurlyTag && (t matches RawToken::CurlyTagStart(_, raw, name)
                && crate::names::tag_name_read(raw@, '{', name, false) && name.local@.len() > 0
                && crate::names::ends_tag_name(d, false))
        } else if c == '<' {
            inside2 == TagContext::PointyTag && (t matches RawToken::PointyTagHead(_, raw, name)
                && crate::names::tag_name_read(raw@, '<', name, true) && name.local@.len() > 0
                && crate::names::ends_tag_name(d, true))
        } else {
            c == '|' && inside2 == TagContext::NotTag && (t matches RawToken::PointyTagTail(_, raw, name)
                && raw@.len() >= 2 && raw@.last() == '>' && crate::names::tag_name_read(
                raw@.drop_last(),
                '|',
                name,
                true,
            ))
        },
        Mode::AttributeName => inside2 == inside && (t matches RawToken::AttributeName(_, raw, name)
            && raw@.len() >= 2 && raw@.last() == '=' && (crate::names::scan_name(raw@.drop_last(), false) matches Some(nm)
            && crate::names::name_is(name, nm) && crate::names::name_step(nm, '=', false, false) is None)
            && name.local@.len() > 0),
        Mode::StringValue => inside2 == inside && (t matches RawToken::AttributeValue(_, raw, v) && raw@.len() >= 2
            && raw@[0] == '"' && raw@.last() == '"' && (crate::values::string_scan(raw@.subrange(1, raw@.len() - 1)) matches Some(st)
            && st.0 == TextEscapeState::Normal && v == AttrValue::String(v->String_0) && v->String_0@ == st.3)),
        Mode::NumericValue => inside2 == inside && crate::values::ends_numeral(d) && (forall|i: int|
            0 <= i < s.len() ==> !crate::values::ends_numeral(#[trigger] s[i])) && (t matches RawToken::AttributeValue(_, _, x)
            && crate::number::number_value(s) == Some(x)),
        Mode::InlineText => inside2 == inside && (d == '\0' || (tag_delimiter(d) && !crate::inline_text::spaced(
            a.stream(),
            b.index() as int,
        ))) && crate::inline_text::delimiters_spaced(a.stream(), a.index() as int, s) && (t matches RawToken::InlineText(_, raw, parsed)
            && (crate::inline_text::text_scan(raw@) matches Some(st) && st.0 == TextEscapeState::Normal
            && parsed@ == st.5)),
        _ => false,
    }
}

/// The errors that the sub-parser for mode `m` may report, having read from `a` to `b`
/// while the tokenizer was inside the tag context `inside`; all others are owed a token.
pub open spec fn mode_error(m: Mode, a: PeekReader, b: PeekReader, inside: TagContext, e: ParserError) -> bool {
    let s = a.stream().subrange(a.index() as int, b.index() as int);
    let c = next_char(a);
    let d = next_char(b);
    match m {
        Mode::Math => e is MissingTerminator && d == '\0' && crate::delimited::math_unclosed(s),
        Mode::CodeBlock => e is MissingTerminator && d == '\0' && exists|n: nat|
            crate::delimited::unclosed(s, n),
        Mode::Tag => {
            let opener = c == '{' || c == '<' || (c == '|' && inside != TagContext::PointyTag);
            let pointy = c != '{';
            let t = a.stream().subrange(a.index() + 1int, b.index() as int);
            let nm = crate::names::scan_name(t, pointy)->0;
            &&& opener
            &&& crate::names::scan_name(t, pointy) is Some
            &&& d == '\0' || crate::names::name_step(nm, d, t.len() == 0, pointy) is None
            &&& !crate::names::ends_tag_name(d, pointy) || nm.4 || (c == '|' && d != '>') || (c != '|'
                && nm.3.len() == 0)
        },
        Mode::AttributeName => {
            let nm = crate::names::scan_name(s, false)->0;
            &&& crate::names::scan_name(s, false) is Some
            &&& d == '\0' || crate::names::name_step(nm, d, s.len() == 0, false) is None
            &&& s.len() == 0 || d != '=' || nm.3.len() == 0
        },
        Mode::StringValue => s.len() >= 1 && s[0] == '"' && (crate::values::string_scan(
            s.drop_first(),
        ) matches Some(st) && ((e is IllegalEscapeSequence && d != '\0' && st.0
            != TextEscapeState::Normal && crate::values::string_step(st, d) is None) || (
        e is MissingTerminator && d == '\0'))),
        Mode::NumericValue => e is IllegalNumber && crate::number::number_value(s) is None,
        Mode::InlineText => crate::inline_text::text_scan(s) matches Some(st) && st.0
            != TextEscapeState::Normal && ((e is IllegalEscapeSequence && d != '\0'
            && crate::inline_text::text_step(st, d) is None) || (e is MissingTerminator && d
            == '\0')),
        _ => false,
    }
}

/// `s` holds no NUL character.
pub open spec fn no_nul(s: Seq<char>) -> bool {
    forall|i: int| 0 <= i < s.len() ==> #[trigger] s[i] != '\0'
}

/// Reads the next token and gives it its span: from the position before it to the
/// position after it. At the end of the stream it reports the decoding error that
/// ended it, if any, and otherwise `EndOfInput`.
pub fn parse_next_token(src: &mut PeekReader, state: &mut State) -> (r: Result<
    RawToken,
    ParserError,
>)
    requires
        old(src).wf(),
    ensures
        moved_on(*old(src), *final(src)),
        !(r matches Err(ParserError::MismatchedEnd(_, _))),
        r matches Ok(t) ==> t.raw_view() == old(src).stream().subrange(
            old(src).index() as int,
            final(src).index() as int,
        ),
        r matches Ok(t) ==> {
            &&& final(src).index() > old(src).index()
            &&& t.span_view().start == old(src).position()
            &&& t.span_view().end == final(src).position()
        },
        next_char(*old(src)) == '\0' ==> r is Err && final(src).index() == old(src).index() && (
        final(src).decode_error() is None ==> r == Err::<RawToken, ParserError>(ParserError::EndOfInput)),
        next_char(*old(src)) != '\0' ==> ({
            let c = next_char(*old(src));
            let fence = c == '`' && char_at(old(src).stream(), old(src).index() + 1int) == '`'
                && char_at(old(src).stream(), old(src).index() + 2int) == '`';
            match dispatch(old(state).mode, old(state).inside_tag, c, fence) {
                None => r matches Err(ParserError::IllegalChar2(_, _, _)),
                Some(m) => final(state).mode == m && (r matches Err(e) ==> mode_error(
                    m,
                    *old(src),
                    *final(src),
                    old(state).inside_tag,
                    e,
                )) && (r matches Ok(t) ==> mode_token(
                    m,
                    *old(src),
                    *final(src),
                    old(state).inside_tag,
                    final(state).inside_tag,
                    t,
                )),
            }
        }),
        r == Err::<RawToken, ParserError>(ParserError::EndOfInput) ==> next_char(*final(src)) == '\0'
            && final(src).index() == old(src).index(),
{
    proof {
        src.lemma_wf();
    }
    if src.peek(0) == '\0' {
        return match src.get_error() {
            Some(e) => Err(ParserError::CharError(e.clone())),
            None => Err(ParserError::EndOfInput),
        };
    }
    let start = src.get_pos();
    let ghost c = next_char(*src);
    match next_state(src, state) {
        None => {},
        Some(err) => return Err(err),
    }
    let mode = state.mode;
    let res = match mode {
        Mode::InlineText => parse_inline_text(src, state),
        Mode::WhitespaceAttrName => parse_whitespace(src, state),
        Mode::CodeBlock => parse_code_block(src, state),
        Mode::TextMarker => parse_text_marker(src, state),
        Mode::Math => parse_math(src, state),
        Mode::Tag => parse_tag(src, state),
        Mode::AttributeName => parse_attr_name(src, state),
        Mode::StringValue => parse_string_value(src, state),
        Mode::NumericValue => parse_numeric_value(src, state),
        Mode::Default | Mode::StartOfInput => {
            assert(false);
            return Err(ParserError::NotReadyYet);
        },
    };
    let mut tok = match res {
        Ok(t) => t,
        Err(e) => return Err(e),
    };
    let end = src.get_pos();
    tok.set_span(Span { start: start, end: end });
    Ok(tok)
}


/// The raw texts of `ts`, one after another.
pub open spec fn raws_of(ts: Seq<RawToken>) -> Seq<char>
    decreases ts.len(),
{
    if ts.len() == 0 {
        Seq::empty()
    } else {
        raws_of(ts.drop_last()) + ts.last().raw_view()
    }
}

/// Pulls tokens from a reader one at a time; one token can be handed back to be read again.
pub struct RawTokenizer {
    src: PeekReader,
    state: State,
    pending: Option<Result<RawToken, ParserError>>,
    produced: Ghost<Seq<RawToken>>,
    finished: Ghost<bool>,
    failed: Ghost<bool>,
    last: Ghost<Option<Result<RawToken, ParserError>>>,
}

impl RawTokenizer {
    /// The characters of the input, up to the first malformed byte.
    pub closed spec fn stream(&self) -> Seq<char> {
        self.src.stream()
    }

    /// The input bytes.
    pub closed spec fn bytes(&self) -> Seq<u8> {
        self.src.bytes()
    }

    /// The reader the tokens are read from.
    pub closed spec fn reader(&self) -> PeekReader {
        self.src
    }

    /// The state the next token is read in.
    pub closed spec fn state(&self) -> State {
        self.state
    }

    /// The tokens read from the input so far, in order; a token handed back and read
    /// again counts once.
    pub closed spec fn produced(&self) -> Seq<RawToken> {
        self.produced@
    }

    /// The position after the last token read.
    pub closed spec fn position(&self) -> Position {
        self.src.position()
    }

    /// How many characters the tokens read so far cover.
    pub closed spec fn consumed(&self) -> nat {
        self.src.index()
    }

    /// Whether the tokenizer has reported the end of the input.
    pub closed spec fn finished(&self) -> bool {
        self.finished@
    }

    /// Whether reading has stopped at malformed input: the tokens read so far then cover
    /// less than what was consumed.
    pub closed spec fn failed(&self) -> bool {
        self.failed@
    }

    /// The result handed back to be read again, if any.
    pub closed spec fn pending(&self) -> Option<Result<RawToken, ParserError>> {
        self.pending
    }

    /// What the last call of `next` returned, if it was called.
    pub closed spec fn last_result(&self) -> Option<Result<RawToken, ParserError>> {
        self.last@
    }

    /// `t` is the token read last, and it ends where the reader stands.
    pub closed spec fn fresh(&self, t: RawToken) -> bool {
        let c = self.src.index() as int;
        let n = t.raw_view().len() as int;
        &&& 0 < n <= c
        &&& t.raw_view() == self.src.stream().subrange(c - n, c)
        &&& t.span_view().start.is_after(self.src.stream().take(c - n))
        &&& t.span_view().end == self.src.position()
        &&& self.produced@.len() > 0
        &&& t == self.produced@.last()
    }

    pub closed spec fn wf(&self) -> bool {
        &&& self.last@ matches Some(Ok(t)) ==> self.fresh(t)
        &&& self.pending matches Some(x) ==> self.last@ == Some(x)
        &&& self.src.wf()
        &&& !self.failed@ ==> raws_of(self.produced@) == self.src.stream().take(
            self.src.index() as int,
        )
        &&& self.finished@ ==> next_char(self.src) == '\0'
    }

    /// A tokenizer over the reader `src`, which must not have been read from.
    pub fn new(src: PeekReader) -> (r: RawTokenizer)
        requires
            src.wf(),
            src.index() == 0,
        ensures
            r.wf(),
            r.stream() == src.stream(),
            r.bytes() == src.bytes(),
            r.produced() == Seq::<RawToken>::empty(),
            r.pending() is None,
            r.consumed() == 0,
            !r.finished(),
            !r.failed(),
            r.last_result() is None,
            r.position() == (Position { byte: 0, line: 1, col: 0 }),
    {
        proof {
            src.lemma_wf();
            assert(src.stream().take(0) =~= Seq::<char>::empty());
        }
        let r = RawTokenizer {
            src: src,
            state: State::new(),
            pending: None,
            produced: Ghost(Seq::empty()),
            finished: Ghost(false),
            failed: Ghost(false),
            last: Ghost(None),
        };
        assert(r.src.stream().take(0) =~= Seq::<char>::empty());
        r
    }

    /// The next token: the one handed back, if there is one, and otherwise the next
    /// one read from the input.
    pub fn next(&mut self) -> (r: Result<RawToken, ParserError>)
        requires
            old(self).wf(),
        ensures
            final(self).wf(),
            final(self).stream() == old(self).stream(),
            final(self).bytes() == old(self).bytes(),
            final(self).pending() is None,
            final(self).last_result() == Some(r),
            r matches Ok(t) ==> {
                &&& t.span_view().end == final(self).position()
                &&& t.span_view().end.byte - t.span_view().start.byte == byte_count(t.raw_view())
                &&& t.span_view().start.byte < t.span_view().end.byte
            },
            old(self).consumed() <= final(self).consumed(),
            old(self).finished() ==> final(self).finished(),
            old(self).failed() ==> final(self).failed(),
            old(self).pending() matches Some(x) ==> r == x && final(self).produced() == old(self).produced()
                && final(self).failed() == old(self).failed() && final(self).finished() == old(self).finished()
                && final(self).position() == old(self).position()
                && final(self).consumed() == old(self).consumed(),
            old(self).pending() is None ==> {
                &&& r matches Ok(t) ==> {
                    &&& final(self).produced() == old(self).produced().push(t)
                    &&& t.raw_view() == old(self).stream().subrange(
                        old(self).consumed() as int,
                        final(self).consumed() as int,
                    )
                    &&& t.span_view().start == old(self).position()
                    &&& t.span_view().end == final(self).position()
                    &&& old(self).consumed() < final(self).consumed()
                    &&& t.span_view().end.byte - t.span_view().start.byte == byte_count(t.raw_view())
                    &&& t.span_view().start.byte < t.span_view().end.byte
                }
                &&& next_char(old(self).reader()) != '\0' ==> ({
                    let a = old(self).reader();
                    let c = next_char(a);
                    let fence = c == '`' && char_at(a.stream(), a.index() + 1int) == '`' && char_at(
                        a.stream(),
                        a.index() + 2int,
                    ) == '`';
                    match dispatch(old(self).state().mode, old(self).state().inside_tag, c, fence) {
                        None => r matches Err(ParserError::IllegalChar2(_, _, _)),
                        Some(m) => final(self).state().mode == m && (r matches Err(e) ==> mode_error(
                            m,
                            a,
                            final(self).reader(),
                            old(self).state().inside_tag,
                            e,
                        )) && (r matches Ok(t) ==> mode_token(
                            m,
                            a,
                            final(self).reader(),
                            old(self).state().inside_tag,
                            final(self).state().inside_tag,
                            t,
                        )),
                    }
                })
                &&& r is Err && r != Err::<RawToken, ParserError>(ParserError::EndOfInput) ==> final(self).failed()
                &&& r is Err ==> final(self).produced() == old(self).produced()
                &&& !(r matches Err(ParserError::MismatchedEnd(_, _)))
                &&& r is Ok || r == Err::<RawToken, ParserError>(ParserError::EndOfInput) ==> final(self).failed() == old(self).failed()
                &&& r == Err::<RawToken, ParserError>(ParserError::EndOfInput) ==> final(self).finished()
                &&& old(self).consumed() < old(self).stream().len() && old(self).stream()[old(
                    self,
                ).consumed() as int] != '\0' ==> r != Err::<RawToken, ParserError>(ParserError::EndOfInput)
                &&& old(self).consumed() >= old(self).stream().len() ==> r is Err
                &&& old(self).consumed() >= old(self).stream().len() && valid_utf8(old(self).bytes())
                    ==> r == Err::<RawToken, ParserError>(ParserError::EndOfInput)
            },
    {
        if self.pending.is_some() {
            let x = self.pending.take();
            let v = match x {
                Some(v) => v,
                None => Err(ParserError::NotReadyYet),
            };
            proof {
                if v is Ok {
                    self.lemma_fresh_span(v->Ok_0);
                }
            }
            return v;
        }
        proof {
            self.src.lemma_wf();
        }
        let ghost before = self.src;
        let r = parse_next_token(&mut self.src, &mut self.state);
        proof {
            self.src.lemma_wf();
            if r is Ok {
                let t = r->Ok_0;
                let old_seq = self.produced@;
                self.produced = Ghost(old_seq.push(t));
                assert(self.produced@.drop_last() =~= old_seq);
                assert(raws_of(self.produced@) == raws_of(old_seq) + t.raw_view());
                let whole = self.src.stream();
                let (i, j) = (before.index() as int, self.src.index() as int);
                assert(whole.take(j) =~= whole.take(i) + whole.subrange(i, j));
                lemma_byte_count_append(whole.take(i), whole.subrange(i, j));
                lemma_byte_count_len(whole.subrange(i, j));
                assert(self.src.stream().take(self.src.index() as int) =~= before.stream().take(
                    before.index() as int,
                ) + t.raw_view());
            } else if r == Err::<RawToken, ParserError>(ParserError::EndOfInput) {
                self.finished = Ghost(true);
            } else {
                self.failed = Ghost(true);
            }
            self.last = Ghost(Some(r));
            if r is Ok {
                let t = r->Ok_0;
                let (i, j) = (before.index() as int, self.src.index() as int);
                assert(t.raw_view().len() == j - i);
                assert(i == j - t.raw_view().len());
                self.lemma_fresh_span(t);
            }
        }
        r
    }

    /// A token read last spans as many bytes as its raw text takes, and at least one.
    proof fn lemma_fresh_span(&self, t: RawToken)
        requires
            self.src.wf(),
            self.fresh(t),
        ensures
            t.span_view().end == self.position(),
            t.span_view().end.byte - t.span_view().start.byte == byte_count(t.raw_view()),
            t.span_view().start.byte < t.span_view().end.byte,
    {
        self.src.lemma_wf();
        let whole = self.src.stream();
        let c = self.src.index() as int;
        let i = c - t.raw_view().len();
        assert(whole.take(c) =~= whole.take(i) + whole.subrange(i, c));
        lemma_byte_count_append(whole.take(i), whole.subrange(i, c));
        lemma_byte_count_len(whole.subrange(i, c));
    }

    /// The position after the tokens read is where counting lines, columns and bytes
    /// over the characters they cover leads.
    pub proof fn lemma_position(&self)
        requires
            self.wf(),
        ensures
            self.position().is_after(self.stream().take(self.consumed() as int)),
            self.consumed() <= self.stream().len(),
    {
        self.src.lemma_wf();
    }

    /// Hands the last result back, so that the next call of `next` returns it again.
    pub fn unnext(&mut self, token: Result<RawToken, ParserError>)
        requires
            old(self).wf(),
            old(self).pending() is None,
            old(self).last_result() == Some(token),
        ensures
            final(self).wf(),
            final(self).pending() == Some(token),
            final(self).stream() == old(self).stream(),
            final(self).bytes() == old(self).bytes(),
            final(self).produced() == old(self).produced(),
            final(self).position() == old(self).position(),
            final(self).consumed() == old(self).consumed(),
            final(self).finished() == old(self).finished(),
            final(self).failed() == old(self).failed(),
            final(self).last_result() == old(self).last_result(),
    {
        self.pending = Some(token);
    }

    /// Whether a result waits to be read again.
    pub fn has_pending(&self) -> (r: bool)
        ensures
            r == self.pending() is Some,
    {
        self.pending.is_some()
    }
}


/// Tokenizing to the end loses nothing: once the tokenizer has reported the end of
/// well-formed UTF-8 input that holds no NUL character, with no error before, the raw
/// texts of the tokens it produced, one after another, are exactly the input.
pub proof fn lemma_lossless(t: &RawTokenizer)
    requires
        t.wf(),
        t.finished(),
        !t.failed(),
        valid_utf8(t.bytes()),
        no_nul(decode_utf8(t.bytes())),
    ensures
        raws_of(t.produced()) == decode_utf8(t.bytes()),
{
    t.src.lemma_wf();
    t.src.lemma_stream();
    lemma_decoded_valid(t.bytes());
    let s = t.stream();
    if t.consumed() < s.len() {
        assert(s[t.consumed() as int] != '\0');
    }
    assert(s.take(s.len() as int) =~= s);
}

/// Successive tokens follow one another: a token starts where the one before it ended,
/// and ends further on, in bytes, by the UTF-8 length of its raw text.
pub proof fn lemma_tokens_advance(s: Seq<char>, i: nat, j: nat, k: nat, p: Position, q: Position, r: Position)
    requires
        i < j < k <= s.len(),
        p.is_after(s.take(i as int)),
        q.is_after(s.take(j as int)),
        r.is_after(s.take(k as int)),
    ensures
        p.byte < q.byte < r.byte,
        q.byte - p.byte == byte_count(s.subrange(i as int, j as int)),
        r.byte - q.byte == byte_count(s.subrange(j as int, k as int)),
{
    assert(s.take(j as int) =~= s.take(i as int) + s.subrange(i as int, j as int));
    assert(s.take(k as int) =~= s.take(j as int) + s.subrange(j as int, k as int));
    lemma_byte_count_append(s.take(i as int), s.subrange(i as int, j as int));
    lemma_byte_count_append(s.take(j as int), s.subrange(j as int, k as int));
    lemma_byte_count_len(s.subrange(i as int, j as int));
    lemma_byte_count_len(s.subrange(j as int, k as int));
}

} // verus!
