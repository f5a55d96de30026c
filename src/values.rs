//! Attribute values, string and numeric, and the escapes that strings and text share.

use crate::chars::white_space;
use crate::chars::is_whitespace;
use crate::errors::ParserError;
use crate::peek_reader::PeekReader;
use crate::pos::Span;
use crate::raw_tokenizer::{moved_on, next_char, read_since, take, token_read, Mode, State};
use crate::text::{push_char, string_from_chars};
use crate::token::{AttrValue, RawToken};
use vstd::prelude::*;

verus! {

/// Adds a hexadecimal digit to a code point; any value past U+10FFFF stays past it.
pub open spec fn hex_push(acc: u32, d: int) -> u32 {
    if acc <= 0x10ffff {
        (acc * 16 + d) as u32
    } else {
        acc
    }
}

/// What `\c` stands for inside an attribute string.
pub open spec fn string_escape(c: char) -> Option<char> {
    if c == '"' {
        Some('"')
    } else if c == '\\' {
        Some('\\')
    } else if c == 'a' {
        Some('\x07')
    } else if c == 'f' {
        Some('\x0C')
    } else if c == 'n' {
        Some('\n')
    } else if c == 'r' {
        Some('\r')
    } else if c == 't' {
        Some('\t')
    } else if c == 'v' {
        Some('\x0B')
    } else {
        None
    }
}

/// What `\c` stands for inside text: the string escapes and `<`, `>`, `'`, `` ` ``,
/// `{`, `|`, `}`, and `s` for a space.
pub open spec fn text_escape(c: char) -> Option<char> {
    if c == '<' || c == '>' || c == '\'' || c == '`' || c == '{' || c == '|' || c == '}' {
        Some(c)
    } else if c == 's' {
        Some(' ')
    } else {
        string_escape(c)
    }
}

pub(crate) fn escape_in_string(c: char) -> (r: Option<char>)
    ensures
        r == string_escape(c),
{
    if c == '"' {
        Some('"')
    } else if c == '\\' {
        Some('\\')
    } else if c == 'a' {
        Some('\x07')
    } else if c == 'f' {
        Some('\x0C')
    } else if c == 'n' {
        Some('\n')
    } else if c == 'r' {
        Some('\r')
    } else if c == 't' {
        Some('\t')
    } else if c == 'v' {
        Some('\x0B')
    } else {
        None
    }
}

pub(crate) fn escape_in_text(c: char) -> (r: Option<char>)
    ensures
        r == text_escape(c),
{
    if c == '<' || c == '>' || c == '\'' || c == '`' || c == '{' || c == '|' || c == '}' {
        Some(c)
    } else if c == 's' {
        Some(' ')
    } else {
        escape_in_string(c)
    }
}

/// The value of a hexadecimal digit.
pub(crate) fn hex_digit(c: char) -> (r: Option<u32>)
    ensures
        r matches Some(d) ==> d < 16 && crate::number::digit_of(c, 16) == Some(d as int),
        r is None ==> crate::number::digit_of(c, 16) is None,
{
    if '0' <= c && c <= '9' {
        Some((c as u32) - ('0' as u32))
    } else if 'a' <= c && c <= 'f' {
        Some((c as u32) - ('a' as u32) + 10)
    } else if 'A' <= c && c <= 'F' {
        Some((c as u32) - ('A' as u32) + 10)
    } else {
        None
    }
}

/// Adds a hexadecimal digit to a code point being read; any value past U+10FFFF
/// stays past it.
pub(crate) fn add_hex_digit(acc: u32, d: u32) -> (r: u32)
    requires
        d < 16,
    ensures
        r == hex_push(acc, d as int),
        acc > 0x10ffff ==> r > 0x10ffff,
{
    if acc <= 0x10ffff {
        acc * 16 + d
    } else {
        acc
    }
}

/// The escape sequence `\u` followed by `digits`, for error messages.
pub(crate) fn unicode_escape_text(digits: &Vec<char>) -> (r: String)
    ensures
        r@ == seq!['\\', 'u'] + digits@,
{
    let mut s = String::new();
    push_char(&mut s, '\\');
    push_char(&mut s, 'u');
    let mut i: usize = 0;
    while i < digits.len()
        invariant
            i <= digits@.len(),
            s@ == seq!['\\', 'u'] + digits@.take(i as int),
        decreases digits@.len() - i,
    {
        push_char(&mut s, digits[i]);
        i = i + 1;
        assert(s@ =~= seq!['\\', 'u'] + digits@.take(i as int));
    }
    assert(digits@.take(i as int) =~= digits@);
    s
}

/// The escape sequence `\c`, for error messages.
pub(crate) fn escape_text(c: char) -> (r: String)
    ensures
        r@ == seq!['\\', c],
{
    let mut s = String::new();
    push_char(&mut s, '\\');
    push_char(&mut s, c);
    assert(s@ =~= seq!['\\', c]);
    s
}

/// Where an escape sequence stands while text is read.
#[derive(Debug, Clone, Copy, PartialEq, Eq, Structural)]
pub enum TextEscapeState {
    Normal,
    Slash,
    Unicode,
}

/// Where reading a string's body stands: the escape state, the digits of a `\u`
/// escape and their value, and the value so far.
pub type StringScan = (TextEscapeState, Seq<char>, u32, Seq<char>);

/// Reads one more character `c` of a string's body. `None` where `c` is an unescaped
/// `"`, which ends the body, or makes an escape illegal.
pub open spec fn string_step(st: StringScan, c: char) -> Option<StringScan> {
    let (esc, digits, code, v) = st;
    match esc {
        TextEscapeState::Normal => if c == '"' {
            None
        } else if c == '\\' {
            Some((TextEscapeState::Slash, digits, code, v))
        } else {
            Some((TextEscapeState::Normal, digits, code, v.push(c)))
        },
        TextEscapeState::Slash => if c == 'u' {
            Some((TextEscapeState::Unicode, Seq::empty(), 0, v))
        } else {
            match string_escape(c) {
                Some(r) => Some((TextEscapeState::Normal, digits, code, v.push(r))),
                None => None,
            }
        },
        TextEscapeState::Unicode => if c == ';' {
            if digits.len() > 0 && vstd::utf8::is_scalar(code) {
                Some((TextEscapeState::Normal, digits, code, v.push(code as char)))
            } else {
                None
            }
        } else {
            match crate::number::digit_of(c, 16) {
                Some(d) => Some((TextEscapeState::Unicode, digits.push(c), hex_push(code, d), v)),
                None => None,
            }
        },
    }
}

/// Reading the body `s` of a string from the start.
pub open spec fn string_scan(s: Seq<char>) -> Option<StringScan>
    decreases s.len(),
{
    if s.len() == 0 {
        Some((TextEscapeState::Normal, Seq::empty(), 0, Seq::empty()))
    } else {
        match string_scan(s.drop_last()) {
            Some(st) => string_step(st, s.last()),
            None => None,
        }
    }
}

/// Reads a `"`-delimited string value, resolving its escapes.
pub fn parse_string_value(src: &mut PeekReader, state: &mut State) -> (r: Result<
    RawToken,
    ParserError,
>)
    requires
        old(src).wf(),
    ensures
        token_read(*old(src), *final(src), r),
        r is Ok ==> final(src).index() > old(src).index(),
        final(state).mode == Mode::StringValue,
        final(state).inside_tag == old(state).inside_tag,
        next_char(*old(src)) != '"' ==> r is Err,
        r matches Ok(t) ==> t is AttributeValue,
        r matches Ok(RawToken::AttributeValue(_, raw, v)) ==> {
            let body = raw@.subrange(1, raw@.len() - 1);
            &&& raw@.len() >= 2 && raw@[0] == '"' && raw@.last() == '"'
            &&& string_scan(body) matches Some(st) && st.0 == TextEscapeState::Normal
                && v == AttrValue::String(v->String_0) && v->String_0@ == st.3
        },
        ({
            let s = old(src).stream().subrange(old(src).index() as int, final(src).index() as int);
            let d = next_char(*final(src));
            r is Err ==> {
                ||| (next_char(*old(src)) != '"' && s.len() == 0 && r matches Err(
                    ParserError::IllegalChar2(_, _, _),
                ))
                ||| (next_char(*old(src)) == '"' && s.len() >= 1 && s[0] == '"' && (string_scan(
                    s.drop_first(),
                ) matches Some(st) && ((r matches Err(ParserError::IllegalEscapeSequence(_, _))
                    && d != '\0' && st.0 != TextEscapeState::Normal && string_step(st, d) is None)
                    || (r matches Err(ParserError::MissingTerminator(_, _)) && d == '\0'))))
            }
        }),
{
    state.mode = Mode::StringValue;
    let ghost from = src.index();
    proof {
        src.lemma_wf();
    }
    let mut raw = String::new();
    assert(raw@ =~= src.stream().subrange(from as int, from as int));
    let pop_c = src.peek(0);
    if pop_c != '"' {
        let pos = src.get_pos();
        return Err(ParserError::IllegalChar2(pos, pop_c, vec!['"']));
    }
    take(src, &mut raw, Ghost(from));
    let mut val: Vec<char> = Vec::new();
    let mut digits: Vec<char> = Vec::new();
    let mut code: u32 = 0;
    let mut esc = TextEscapeState::Normal;
    assert(raw@.drop_first() =~= Seq::<char>::empty());
    assert(val@ =~= Seq::<char>::empty());
    assert(digits@ =~= Seq::<char>::empty());
    loop
        invariant
            moved_on(*old(src), *src),
            from == old(src).index(),
            read_since(*src, from, raw@),
            raw@.len() >= 1 && raw@[0] == '"',
            next_char(*old(src)) == '"',
            state.mode == Mode::StringValue,
            state.inside_tag == old(state).inside_tag,
            string_scan(raw@.drop_first()) == Some((esc, digits@, code, val@)),
        decreases src.stream().len() - src.index(),
    {
        proof {
            src.lemma_wf();
        }
        let pop_c = src.peek(0);
        if pop_c == '\0' {
            let pos = src.get_pos();
            return Err(ParserError::MissingTerminator(pos, '"'));
        }
        let ghost before = raw@;
        let ghost st = (esc, digits@, code, val@);
        let ghost body = before.drop_first();
        proof {
            assert(body.push(pop_c).drop_last() =~= body);
        }
        match esc {
            TextEscapeState::Normal => {
                if pop_c == '"' {
                    take(src, &mut raw, Ghost(from));
                    assert(raw@.subrange(1, raw@.len() - 1) =~= body);
                    let s = string_from_chars(&val);
                    return Ok(RawToken::AttributeValue(Span::new(), raw, AttrValue::String(s)));
                } else if pop_c == '\\' {
                    esc = TextEscapeState::Slash;
                } else {
                    val.push(pop_c);
                }
            },
            TextEscapeState::Slash => {
                if pop_c == 'u' {
                    esc = TextEscapeState::Unicode;
                    digits = Vec::new();
                    code = 0;
                } else {
                    match escape_in_string(pop_c) {
                        Some(real_c) => {
                            val.push(real_c);
                            esc = TextEscapeState::Normal;
                        },
                        None => {
                            let pos = src.get_pos();
                            return Err(ParserError::IllegalEscapeSequence(pos, escape_text(pop_c)));
                        },
                    }
                }
            },
            TextEscapeState::Unicode => {
                if pop_c == ';' {
                    let ok = digits.len() > 0 && code <= 0x10ffff;
                    let decoded = if ok {
                        crate::chars::u32_to_char(code)
                    } else {
                        Err(crate::chars::CharErrorEnum::ScalarTooLarge(code))
                    };
                    match decoded {
                        Ok(c) => {
                            val.push(c);
                            esc = TextEscapeState::Normal;
                        },
                        Err(_) => {
                            let pos = src.get_pos();
                            return Err(ParserError::IllegalEscapeSequence(pos, unicode_escape_text(&digits)));
                        },
                    }
                } else {
                    match hex_digit(pop_c) {
                        Some(d) => {
                            digits.push(pop_c);
                            code = add_hex_digit(code, d);
                        },
                        None => {
                            digits.push(pop_c);
                            let pos = src.get_pos();
                            return Err(ParserError::IllegalEscapeSequence(pos, unicode_escape_text(&digits)));
                        },
                    }
                }
            },
        }
        assert(string_step(st, pop_c) == Some((esc, digits@, code, val@)));
        take(src, &mut raw, Ghost(from));
        proof {
            assert(raw@.drop_first() =~= body.push(pop_c));
        }
    }
}


/// May `c` end a numeral?
pub open spec fn ends_numeral(c: char) -> bool {
    c == '\0' || white_space(c) || c == '}' || c == ';' || c == '>' || c == '|'
}

/// Reads a numeral up to the next whitespace or tag delimiter.
pub fn parse_numeric_value(src: &mut PeekReader, state: &mut State) -> (r: Result<
    RawToken,
    ParserError,
>)
    requires
        old(src).wf(),
    ensures
        token_read(*old(src), *final(src), r),
        final(state).mode == Mode::NumericValue,
        final(state).inside_tag == old(state).inside_tag,
        ({
            let s = old(src).stream().subrange(old(src).index() as int, final(src).index() as int);
            &&& forall|i: int| 0 <= i < s.len() ==> !ends_numeral(#[trigger] s[i])
            &&& ends_numeral(next_char(*final(src)))
            &&& crate::number::number_value(s) matches Some(v) ==> (r matches Ok(
                RawToken::AttributeValue(_, _, x),
            ) && x == v)
            &&& crate::number::number_value(s) is None ==> (r matches Err(
                ParserError::IllegalNumber(span, raw),
            ) && raw@ == s && span.start == old(src).position() && span.end
                == final(src).position())
        }),
{
    state.mode = Mode::NumericValue;
    let ghost from = src.index();
    proof {
        src.lemma_wf();
    }
    let start = src.get_pos();
    let mut raw = String::new();
    let mut chars: Vec<char> = Vec::new();
    assert(raw@ =~= src.stream().subrange(from as int, from as int));
    loop
        invariant
            moved_on(*old(src), *src),
            from == old(src).index(),
            read_since(*src, from, raw@),
            chars@ == raw@,
            forall|i: int| 0 <= i < raw@.len() ==> !ends_numeral(#[trigger] raw@[i]),
            state.mode == Mode::NumericValue,
            state.inside_tag == old(state).inside_tag,
        ensures
            moved_on(*old(src), *src),
            read_since(*src, from, raw@),
            chars@ == raw@,
            forall|i: int| 0 <= i < raw@.len() ==> !ends_numeral(#[trigger] raw@[i]),
            ends_numeral(next_char(*src)),
        decreases src.stream().len() - src.index(),
    {
        proof {
            src.lemma_wf();
        }
        let c = src.peek(0);
        if c == '\0' || is_whitespace(c) || c == '}' || c == ';' || c == '>' || c == '|' {
            break;
        }
        let ghost before = raw@;
        take(src, &mut raw, Ghost(from));
        chars.push(c);
        assert forall|i: int| 0 <= i < raw@.len() implies !ends_numeral(#[trigger] raw@[i]) by {
            if i < before.len() {
                assert(raw@[i] == before[i]);
            }
        }
    }
    let end = src.get_pos();
    match crate::number::parse_number(&chars) {
        Some(v) => Ok(RawToken::AttributeValue(Span::new(), raw, v)),
        None => Err(ParserError::IllegalNumber(Span { start: start, end: end }, raw)),
    }
}

} // verus!
