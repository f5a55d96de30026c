//! Names of tags and attributes, and the tag delimiters that carry them.

use crate::chars::{is_whitespace, white_space};
use crate::errors::ParserError;
use crate::peek_reader::PeekReader;
use crate::pos::Span;
use crate::raw_tokenizer::{moved_on, next_char, read_since, take, token_read, Mode, State, TagContext};
use crate::text::push_char;
use crate::token::{BasicName, RawToken};
use vstd::prelude::*;

verus! {

/// A name as read so far: view, special, prefix, local part, and whether a view is open.
pub type NameParts = (Seq<char>, bool, Seq<char>, Seq<char>, bool);

/// The name read from no characters.
pub open spec fn no_name() -> NameParts {
    (Seq::empty(), false, Seq::empty(), Seq::empty(), false)
}

/// Reads one more character of a name: `first` tells whether it is the name's first
/// character, `pointy` whether views are allowed. `None` where `c` cannot stand there.
pub open spec fn name_step(m: NameParts, c: char, first: bool, pointy: bool) -> Option<NameParts> {
    let (view, special, prefix, local, open) = m;
    if first && c == '!' {
        Some((view, true, prefix, local.push(c), open))
    } else if crate::chars::valid_id_char(local.len() == 0, c) {
        Some((view, special, prefix, local.push(c), open))
    } else if c == ':' && prefix.len() == 0 {
        Some((view, special, local, Seq::empty(), open))
    } else if c == '(' && pointy && !open {
        Some((view, special, prefix, local, true))
    } else if c == ')' && pointy && open {
        Some((local, special, prefix, Seq::empty(), false))
    } else {
        None
    }
}

/// The name that the characters `s` spell, if they spell one.
pub open spec fn scan_name(s: Seq<char>, pointy: bool) -> Option<NameParts>
    decreases s.len(),
{
    if s.len() == 0 {
        Some(no_name())
    } else {
        match scan_name(s.drop_last(), pointy) {
            Some(m) => name_step(m, s.last(), s.len() == 1, pointy),
            None => None,
        }
    }
}

/// `name` holds the parts `m`.
pub open spec fn name_is(name: BasicName, m: NameParts) -> bool {
    &&& name.view@ == m.0
    &&& name.special == m.1
    &&& name.prefix@ == m.2
    &&& name.local@ == m.3
}

/// Reads name characters for as long as they fit. Returns the name and whether a view
/// is still open; the next character is the first that does not fit, or the end.
fn read_name(src: &mut PeekReader, raw: &mut String, Ghost(from): Ghost<nat>, pointy: bool) -> (r: (
    BasicName,
    bool,
))
    requires
        old(src).wf(),
        read_since(*old(src), from, old(raw)@),
    ensures
        moved_on(*old(src), *final(src)),
        read_since(*final(src), from, final(raw)@),
        ({
            let s = final(src).stream().subrange(old(src).index() as int, final(src).index() as int);
            &&& final(raw)@ == old(raw)@ + s
            &&& scan_name(s, pointy) matches Some(m) && name_is(r.0, m) && r.1 == m.4
            &&& next_char(*final(src)) == '\0' || name_step(
                scan_name(s, pointy)->0,
                next_char(*final(src)),
                s.len() == 0,
                pointy,
            ) is None
        }),
{
    let mut name = BasicName::new_empty();
    let mut open = false;
    let mut first = true;
    let ghost start = src.index();
    let ghost base = raw@;
    proof {
        src.lemma_wf();
        assert(src.stream().subrange(start as int, start as int) =~= Seq::<char>::empty());
        assert(raw@ =~= base + Seq::<char>::empty());
        assert(scan_name(src.stream().subrange(start as int, start as int), pointy) == Some(
            no_name(),
        ));
        assert(name.view@ =~= Seq::<char>::empty());
        assert(name.prefix@ =~= Seq::<char>::empty());
        assert(name.local@ =~= Seq::<char>::empty());
    }
    loop
        invariant
            moved_on(*old(src), *src),
            start == old(src).index(),
            base == old(raw)@,
            read_since(*src, from, raw@),
            from <= start <= src.index(),
            first == (src.index() == start),
            raw@ == base + src.stream().subrange(start as int, src.index() as int),
            scan_name(src.stream().subrange(start as int, src.index() as int), pointy) matches Some(m)
                && name_is(name, m) && open == m.4,
        ensures
            moved_on(*old(src), *src),
            read_since(*src, from, raw@),
            raw@ == base + src.stream().subrange(start as int, src.index() as int),
            ({
                let s = src.stream().subrange(start as int, src.index() as int);
                &&& scan_name(s, pointy) matches Some(m) && name_is(name, m) && open == m.4
                &&& next_char(*src) == '\0' || name_step(
                    scan_name(s, pointy)->0,
                    next_char(*src),
                    s.len() == 0,
                    pointy,
                ) is None
            }),
        decreases src.stream().len() - src.index(),
    {
        proof {
            src.lemma_wf();
        }
        let c = src.peek(0);
        let ghost s = src.stream().subrange(start as int, src.index() as int);
        let ghost m = scan_name(s, pointy)->0;
        if c == '\0' {
            break;
        }
        let local_empty = name.local.as_str().is_empty();
        if first && c == '!' {
            name.special = true;
            push_char(&mut name.local, c);
        } else if crate::chars::is_valid_id_char(local_empty, c) {
            push_char(&mut name.local, c);
        } else if c == ':' && name.prefix.as_str().is_empty() {
            name.prefix = name.local;
            name.local = String::new();
        } else if c == '(' && pointy && !open {
            open = true;
        } else if c == ')' && pointy && open {
            name.view = name.local;
            name.local = String::new();
            open = false;
        } else {
            assert(name_step(m, c, s.len() == 0, pointy) is None);
            break;
        }
        take(src, raw, Ghost(from));
        first = false;
        proof {
            let s2 = src.stream().subrange(start as int, src.index() as int);
            assert(s2.drop_last() =~= s);
            assert(s2.last() == c);
            assert(raw@ =~= base + s2);
        }
    }
    (name, open)
}


/// May `c` end a tag's name? `pointy` tells the kind of tag.
pub open spec fn ends_tag_name(c: char, pointy: bool) -> bool {
    ||| c == '\0'
    ||| white_space(c)
    ||| (!pointy && (c == ';' || c == '}'))
    ||| (pointy && (c == '|' || c == '>'))
}

/// `raw` is `opener` followed by the characters of a name with parts `m`.
pub open spec fn tag_name_read(raw: Seq<char>, opener: char, name: BasicName, pointy: bool) -> bool {
    &&& raw.len() >= 1
    &&& raw[0] == opener
    &&& scan_name(raw.drop_first(), pointy) matches Some(m) && name_is(name, m) && !m.4
}

/// Reads a tag delimiter: `{name` or `<name` open a tag, `}` and `>` close one, `|`
/// ends a pointy tag's attributes, and `|name>` outside a tag is a pointy end tag.
pub fn parse_tag(src: &mut PeekReader, state: &mut State) -> (r: Result<RawToken, ParserError>)
    requires
        old(src).wf(),
    ensures
        token_read(*old(src), *final(src), r),
        r is Ok ==> final(src).index() > old(src).index(),
        final(state).mode == Mode::Tag,
        ({
            let c = next_char(*old(src));
            &&& c == '}' ==> (r matches Ok(RawToken::CurlyTagEnd(_, x)) && x == '}'
                && final(state).inside_tag == TagContext::NotTag)
            &&& c == '>' ==> (r matches Ok(RawToken::PointyTagTail(_, raw, name)) && raw@ == seq!['>']
                && name.spec_is_empty() && final(state).inside_tag == TagContext::NotTag)
            &&& c == '|' && old(state).inside_tag == TagContext::PointyTag ==> (r matches Ok(
                RawToken::TextMarker(_, x),
            ) && x == '|' && final(state).inside_tag == TagContext::NotTag)
            &&& !(c == '{' || c == '}' || c == '<' || c == '>' || c == '|') ==> r matches Err(
                ParserError::IllegalChar2(_, _, _),
            )
        }),
        r matches Ok(RawToken::CurlyTagStart(_, raw, name)) ==> {
            &&& next_char(*old(src)) == '{'
            &&& tag_name_read(raw@, '{', name, false)
            &&& name.local@.len() > 0
            &&& ends_tag_name(next_char(*final(src)), false)
            &&& final(state).inside_tag == TagContext::CurlyTag
        },
        r matches Ok(RawToken::PointyTagHead(_, raw, name)) ==> {
            &&& next_char(*old(src)) == '<'
            &&& tag_name_read(raw@, '<', name, true)
            &&& name.local@.len() > 0
            &&& ends_tag_name(next_char(*final(src)), true)
            &&& final(state).inside_tag == TagContext::PointyTag
        },
        ({
            let c = next_char(*old(src));
            let opener = c == '{' || c == '<' || (c == '|' && old(state).inside_tag
                != TagContext::PointyTag);
            let pointy = c != '{';
            let s = old(src).stream().subrange(old(src).index() + 1int, final(src).index() as int);
            let m = scan_name(s, pointy)->0;
            let d = next_char(*final(src));
            &&& opener && r is Ok ==> (c == '{' ==> r->Ok_0 is CurlyTagStart) && (c == '<'
                ==> r->Ok_0 is PointyTagHead) && (c == '|' ==> r->Ok_0 is PointyTagTail)
            &&& opener && r is Err ==> {
                &&& scan_name(s, pointy) is Some
                &&& d == '\0' || name_step(m, d, s.len() == 0, pointy) is None
                &&& !ends_tag_name(d, pointy) || m.4 || (c == '|' && d != '>') || (c != '|'
                    && m.3.len() == 0)
            }
        }),
        next_char(*old(src)) == '|' ==> (r matches Ok(RawToken::PointyTagTail(_, raw, name)) ==> {
            &&& old(state).inside_tag != TagContext::PointyTag
            &&& raw@.len() >= 2 && raw@.last() == '>'
            &&& tag_name_read(raw@.drop_last(), '|', name, true)
            &&& final(state).inside_tag == TagContext::NotTag
        }),
{
    state.mode = Mode::Tag;
    let ghost from = src.index();
    proof {
        src.lemma_wf();
    }
    let mut raw = String::new();
    assert(raw@ =~= src.stream().subrange(from as int, from as int));
    let pop_c = src.peek(0);
    let start_pos = src.get_pos();
    if pop_c == '}' {
        take(src, &mut raw, Ghost(from));
        state.inside_tag = TagContext::NotTag;
        assert(raw@ =~= seq!['}']);
        return Ok(RawToken::CurlyTagEnd(Span::new(), pop_c));
    }
    if pop_c == '>' {
        take(src, &mut raw, Ghost(from));
        state.inside_tag = TagContext::NotTag;
        assert(raw@ =~= seq!['>']);
        let name = BasicName::new_empty();
        return Ok(RawToken::PointyTagTail(Span::new(), raw, name));
    }
    if pop_c == '|' && state.inside_tag == TagContext::PointyTag {
        take(src, &mut raw, Ghost(from));
        state.inside_tag = TagContext::NotTag;
        assert(raw@ =~= seq!['|']);
        return Ok(RawToken::TextMarker(Span::new(), pop_c));
    }
    if !(pop_c == '{' || pop_c == '<' || pop_c == '|') {
        return Err(ParserError::IllegalChar2(start_pos, pop_c, vec!['<', '>', '{', '}', '|']));
    }
    let pointy = pop_c != '{';
    let end_tag = pop_c == '|';
    state.inside_tag = if pointy {
        TagContext::PointyTag
    } else {
        TagContext::CurlyTag
    };
    take(src, &mut raw, Ghost(from));
    let ghost opened = raw@;
    let (name, open) = read_name(src, &mut raw, Ghost(from), pointy);
    proof {
        assert(raw@.drop_first() =~= src.stream().subrange(from + 1int, src.index() as int));
    }
    let c = src.peek(0);
    let stop = c == '\0' || is_whitespace(c) || (!pointy && (c == ';' || c == '}')) || (pointy && (
    c == '|' || c == '>'));
    if !stop {
        let pos = src.get_pos();
        return Err(ParserError::IllegalCharMsg(pos, c, crate::text::owned("valid id char")));
    }
    if open {
        let pos = src.get_pos();
        return Err(ParserError::MissingTerminator(pos, ')'));
    }
    if end_tag {
        if c != '>' {
            let pos = src.get_pos();
            return Err(ParserError::MissingTerminator(pos, '>'));
        }
        proof {
            src.lemma_wf();
        }
        let ghost named = raw@;
        take(src, &mut raw, Ghost(from));
        state.inside_tag = TagContext::NotTag;
        assert(raw@.drop_last() =~= named);
        return Ok(RawToken::PointyTagTail(Span::new(), raw, name));
    }
    if name.local.as_str().is_empty() {
        return Err(ParserError::MissingLocalName(start_pos));
    }
    if pointy {
        Ok(RawToken::PointyTagHead(Span::new(), raw, name))
    } else {
        Ok(RawToken::CurlyTagStart(Span::new(), raw, name))
    }
}

/// Reads an attribute's name together with the `=` after it.
pub fn parse_attr_name(src: &mut PeekReader, state: &mut State) -> (r: Result<
    RawToken,
    ParserError,
>)
    requires
        old(src).wf(),
    ensures
        token_read(*old(src), *final(src), r),
        r is Ok ==> final(src).index() > old(src).index(),
        final(state).mode == Mode::AttributeName,
        final(state).inside_tag == old(state).inside_tag,
        r matches Ok(t) ==> t is AttributeName,
        r matches Ok(RawToken::AttributeName(_, raw, name)) ==> {
            &&& raw@.len() >= 2 && raw@.last() == '='
            &&& scan_name(raw@.drop_last(), false) matches Some(m) && name_is(name, m)
                && name_step(m, '=', false, false) is None
            &&& name.local@.len() > 0
            &&& name.view@.len() == 0
        },
        ({
            let s = old(src).stream().subrange(old(src).index() as int, final(src).index() as int);
            let m = scan_name(s, false)->0;
            let d = next_char(*final(src));
            r is Err ==> {
                &&& scan_name(s, false) is Some
                &&& d == '\0' || name_step(m, d, s.len() == 0, false) is None
                &&& s.len() == 0 || d != '=' || m.3.len() == 0
            }
        }),
{
    state.mode = Mode::AttributeName;
    let ghost from = src.index();
    proof {
        src.lemma_wf();
    }
    let mut raw = String::new();
    assert(raw@ =~= src.stream().subrange(from as int, from as int));
    let start_pos = src.get_pos();
    let (name, _open) = read_name(src, &mut raw, Ghost(from), false);
    let ghost named = raw@;
    assert(named =~= src.stream().subrange(from as int, src.index() as int));
    proof {
        lemma_scan_no_view(named);
    }
    let c = src.peek(0);
    if c == '=' && !raw.as_str().is_empty() {
        proof {
            src.lemma_wf();
        }
        if name.local.as_str().is_empty() {
            return Err(ParserError::MissingLocalName(start_pos));
        }
        take(src, &mut raw, Ghost(from));
        assert(raw@.drop_last() =~= named);
        return Ok(RawToken::AttributeName(Span::new(), raw, name));
    }
    let pos = src.get_pos();
    Err(ParserError::IllegalCharMsg(pos, c, crate::text::owned("valid id char")))
}

/// Without views allowed, a name never gets one.
pub proof fn lemma_scan_no_view(s: Seq<char>)
    ensures
        scan_name(s, false) matches Some(m) ==> m.0.len() == 0 && !m.4,
    decreases s.len(),
{
    if s.len() > 0 {
        lemma_scan_no_view(s.drop_last());
    }
}

} // verus!
