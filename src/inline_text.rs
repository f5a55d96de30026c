//! Inline text: escapes resolved, blanks around line breaks trimmed.

use crate::errors::ParserError;
use crate::peek_reader::{char_at, PeekReader};
use crate::pos::Span;
use crate::raw_tokenizer::{moved_on, next_char, read_since, take, token_read, Mode, State};
use crate::text::string_from_chars;
use crate::token::RawToken;
use crate::values::{
    add_hex_digit, escape_in_text, escape_text, hex_digit, hex_push, text_escape,
    unicode_escape_text, TextEscapeState,
};
use vstd::prelude::*;

verus! {

/// The characters that end inline text unless a space stands on both sides.
pub open spec fn tag_delimiter(c: char) -> bool {
    c == '{' || c == '}' || c == '<' || c == '>' || c == '|'
}

/// Text that reads as itself: no reserved character, no line feed, no NUL.
pub open spec fn plain_char(c: char) -> bool {
    !crate::chars::reserved(c) && c != '\n' && c != '\0'
}

/// Where reading text stands: the escape state, the hexadecimal digits of a `\u`
/// escape and their value, whether a line has just been broken, how much of the
/// parsed text ends with a visible character, and the parsed text.
pub type TextScan = (TextEscapeState, Seq<char>, u32, bool, nat, Seq<char>);

/// Does the delimiter at index `i` of `st` stand with a space on both sides?
pub open spec fn spaced(st: Seq<char>, i: int) -> bool {
    char_at(st, i - 1) == ' ' && char_at(st, i + 1) == ' '
}

/// In the text `raw`, which starts at index `from` of `st`, every tag delimiter read
/// outside an escape has a space on both sides.
pub open spec fn delimiters_spaced(st: Seq<char>, from: int, raw: Seq<char>) -> bool {
    forall|k: int|
        0 <= k < raw.len() && (text_scan(#[trigger] raw.take(k)) matches Some(t) && t.0
            == TextEscapeState::Normal) && tag_delimiter(raw[k]) ==> spaced(st, from + k)
}

/// Reads one more character `c` of text. `None` where `c` makes an escape illegal.
pub open spec fn text_step(st: TextScan, c: char) -> Option<TextScan> {
    let (esc, digits, code, nl, lv, p) = st;
    match esc {
        TextEscapeState::Normal => if c == '\\' {
            Some((TextEscapeState::Slash, digits, code, nl, lv, p))
        } else {
            let c_ws = c == ' ' || c == '\t';
            let nl1 = nl && c_ws;
            if c == '\n' {
                let t = p.take(lv as int);
                Some((TextEscapeState::Normal, digits, code, true, lv, if t.len() > 0 { t.push('\n') } else { t }))
            } else if nl1 {
                Some((TextEscapeState::Normal, digits, code, nl1, lv, p))
            } else {
                let p2 = p.push(c);
                Some((TextEscapeState::Normal, digits, code, nl1, if c_ws { lv } else { p2.len() }, p2))
            }
        },
        TextEscapeState::Slash => if c == 'u' {
            Some((TextEscapeState::Unicode, Seq::empty(), 0, nl, lv, p))
        } else {
            match text_escape(c) {
                Some(r) => Some((TextEscapeState::Normal, digits, code, false, p.len() + 1, p.push(r))),
                None => None,
            }
        },
        TextEscapeState::Unicode => if c == ';' {
            if digits.len() > 0 && vstd::utf8::is_scalar(code) {
                Some((TextEscapeState::Normal, digits, code, false, p.len() + 1, p.push(code as char)))
            } else {
                None
            }
        } else {
            match crate::number::digit_of(c, 16) {
                Some(d) => Some((TextEscapeState::Unicode, digits.push(c), hex_push(code, d), nl, lv, p)),
                None => None,
            }
        },
    }
}

/// Reading the text `s` from the start; `None` where an escape in it is illegal.
pub open spec fn text_scan(s: Seq<char>) -> Option<TextScan>
    decreases s.len(),
{
    if s.len() == 0 {
        Some((TextEscapeState::Normal, Seq::empty(), 0, false, 0, Seq::empty()))
    } else {
        match text_scan(s.drop_last()) {
            Some(st) => text_step(st, s.last()),
            None => None,
        }
    }
}

/// Reads plain text up to the next tag delimiter that is not surrounded by spaces.
/// Escapes are resolved in the parsed text, and at each line feed the parsed text
/// loses the blanks that precede it and those that open the next line. Input that
/// ends inside an escape is reported as a missing `;`.
pub fn parse_inline_text(src: &mut PeekReader, state: &mut State) -> (r: Result<
    RawToken,
    ParserError,
>)
    requires
        old(src).wf(),
    ensures
        token_read(*old(src), *final(src), r),
        final(state).mode == Mode::InlineText,
        final(state).inside_tag == old(state).inside_tag,
        r matches Ok(t) ==> t is InlineText,
        r is Ok && next_char(*old(src)) != '\0' && !tag_delimiter(next_char(*old(src)))
            ==> final(src).index() > old(src).index(),
        r is Ok ==> next_char(*final(src)) == '\0' || (tag_delimiter(next_char(*final(src)))
            && !spaced(old(src).stream(), final(src).index() as int)),
        r matches Ok(RawToken::InlineText(_, raw, parsed)) ==> (text_scan(raw@) matches Some(st)
            && st.0 == TextEscapeState::Normal && parsed@ == st.5),
        ({
            let s = old(src).stream().subrange(old(src).index() as int, final(src).index() as int);
            let d = next_char(*final(src));
            &&& delimiters_spaced(old(src).stream(), old(src).index() as int, s)
            &&& r is Err ==> (text_scan(s) matches Some(st) && st.0 != TextEscapeState::Normal && (
                (r matches Err(ParserError::IllegalEscapeSequence(_, _)) && d != '\0' && text_step(
                    st,
                    d,
                ) is None) || (r matches Err(ParserError::MissingTerminator(_, _)) && d == '\0')))
        }),
        (forall|i: int|
            old(src).index() <= i < old(src).stream().len() ==> plain_char(
                #[trigger] old(src).stream()[i],
            )) ==> (r matches Ok(RawToken::InlineText(_, raw, parsed)) && parsed@ == raw@ && raw@
            == old(src).stream().subrange(old(src).index() as int, old(src).stream().len() as int)),
{
    state.mode = Mode::InlineText;
    let ghost from = src.index();
    proof {
        src.lemma_wf();
    }
    let mut raw = String::new();
    let mut parsed: Vec<char> = Vec::new();
    let mut digits: Vec<char> = Vec::new();
    let mut code: u32 = 0;
    let mut esc = TextEscapeState::Normal;
    let mut new_line = false;
    let mut last_vis: usize = 0;
    let ghost all_plain = forall|i: int|
        old(src).index() <= i < old(src).stream().len() ==> plain_char(
            #[trigger] old(src).stream()[i],
        );
    assert(raw@ =~= src.stream().subrange(from as int, from as int));
    assert(parsed@ =~= Seq::<char>::empty());
    assert(digits@ =~= Seq::<char>::empty());
    loop
        invariant
            moved_on(*old(src), *src),
            from == old(src).index(),
            read_since(*src, from, raw@),
            state.mode == Mode::InlineText,
            state.inside_tag == old(state).inside_tag,
            last_vis <= parsed@.len(),
            text_scan(raw@) == Some((esc, digits@, code, new_line, last_vis as nat, parsed@)),
            src.index() == from ==> esc == TextEscapeState::Normal,
            delimiters_spaced(src.stream(), from as int, raw@),
            all_plain == (forall|i: int|
                old(src).index() <= i < old(src).stream().len() ==> plain_char(
                    #[trigger] old(src).stream()[i],
                )),
            all_plain ==> esc == TextEscapeState::Normal && !new_line && parsed@ == raw@,
        ensures
            moved_on(*old(src), *src),
            read_since(*src, from, raw@),
            esc == TextEscapeState::Normal,
            text_scan(raw@) == Some((esc, digits@, code, new_line, last_vis as nat, parsed@)),
            next_char(*src) == '\0' || (tag_delimiter(next_char(*src)) && !spaced(
                src.stream(),
                src.index() as int,
            )),
            delimiters_spaced(src.stream(), from as int, raw@),
            src.index() == from ==> next_char(*src) == next_char(*old(src)),
            all_plain ==> parsed@ == raw@ && next_char(*src) == '\0',
        decreases src.stream().len() - src.index(),
    {
        proof {
            src.lemma_wf();
        }
        let last_c = src.peek(-1);
        let pop_c = src.peek(0);
        let next_c = src.peek(1);
        if pop_c == '\0' {
            if esc != TextEscapeState::Normal {
                let pos = src.get_pos();
                return Err(ParserError::MissingTerminator(pos, ';'));
            }
            break;
        }
        proof {
            if all_plain {
                assert(plain_char(src.stream()[src.index() as int]));
            }
        }
        let ghost before = raw@;
        let ghost st = (esc, digits@, code, new_line, last_vis as nat, parsed@);
        match esc {
            TextEscapeState::Normal => {
                let special = pop_c == '{' || pop_c == '}' || pop_c == '<' || pop_c == '>' || pop_c
                    == '|';
                if special && (last_c != ' ' || next_c != ' ') {
                    break;
                }
                if pop_c == '\\' {
                    esc = TextEscapeState::Slash;
                } else {
                    let c_ws = pop_c == ' ' || pop_c == '\t';
                    if new_line && !c_ws {
                        new_line = false;
                    }
                    if pop_c == '\n' {
                        let ghost p0 = parsed@;
                        parsed.truncate(last_vis);
                        assert(parsed@ =~= p0.take(last_vis as int));
                        new_line = true;
                        if parsed.len() > 0 {
                            parsed.push('\n');
                        }
                    }
                    if !new_line {
                        parsed.push(pop_c);
                        if !c_ws {
                            last_vis = parsed.len();
                        }
                    }
                }
            },
            TextEscapeState::Slash => {
                if pop_c == 'u' {
                    esc = TextEscapeState::Unicode;
                    digits = Vec::new();
                    code = 0;
                } else {
                    match escape_in_text(pop_c) {
                        Some(real_c) => {
                            parsed.push(real_c);
                            esc = TextEscapeState::Normal;
                            new_line = false;
                            last_vis = parsed.len();
                        },
                        None => {
                            let pos = src.get_pos();
                            proof {
                                assert(text_step(st, pop_c) is None);
                                assert(before.push(pop_c).drop_last() =~= before);
                            }
                            return Err(ParserError::IllegalEscapeSequence(pos, escape_text(pop_c)));
                        },
                    }
                }
            },
            TextEscapeState::Unicode => {
                if pop_c == ';' {
                    let ok = digits.len() > 0 && code <= 0x10ffff;
                    let decoded = if ok {
                        crate::chars::u32_to_char(code)
                    } else {
                        Err(crate::chars::CharErrorEnum::ScalarTooLarge(code))
                    };
                    match decoded {
                        Ok(c) => {
                            parsed.push(c);
                            esc = TextEscapeState::Normal;
                            new_line = false;
                            last_vis = parsed.len();
                        },
                        Err(_) => {
                            let pos = src.get_pos();
                            proof {
                                assert(text_step(st, pop_c) is None);
                                assert(before.push(pop_c).drop_last() =~= before);
                            }
                            return Err(ParserError::IllegalEscapeSequence(pos, unicode_escape_text(&digits)));
                        },
                    }
                } else {
                    match hex_digit(pop_c) {
                        Some(d) => {
                            let ghost c0 = code;
                            digits.push(pop_c);
                            code = add_hex_digit(code, d);
                            assert(code == hex_push(c0, d as int));
                        },
                        None => {
                            digits.push(pop_c);
                            let pos = src.get_pos();
                            proof {
                                assert(text_step(st, pop_c) is None);
                                assert(before.push(pop_c).drop_last() =~= before);
                            }
                            return Err(ParserError::IllegalEscapeSequence(pos, unicode_escape_text(&digits)));
                        },
                    }
                }
            },
        }
        assert(text_step(st, pop_c) == Some((esc, digits@, code, new_line, last_vis as nat, parsed@)));
        take(src, &mut raw, Ghost(from));
        proof {
            assert(raw@.drop_last() =~= before);
            assert(raw@.last() == pop_c);
            assert(text_scan(raw@) == text_step(st, pop_c));
            assert forall|k: int|
                0 <= k < raw@.len() && (text_scan(#[trigger] raw@.take(k)) matches Some(t) && t.0
                    == TextEscapeState::Normal) && tag_delimiter(raw@[k]) implies spaced(
                src.stream(),
                from + k,
            ) by {
                if k < before.len() {
                    assert(raw@.take(k) =~= before.take(k));
                    assert(raw@[k] == before[k]);
                } else {
                    assert(raw@.take(k) =~= before);
                }
            }
            if all_plain {
                assert(raw@ =~= before.push(pop_c));
            }
        }
    }
    let p = string_from_chars(&parsed);
    proof {
        if all_plain {
            src.lemma_wf();
            assert(src.index() == src.stream().len());
        }
    }
    Ok(RawToken::InlineText(Span::new(), raw, p))
}

} // verus!
