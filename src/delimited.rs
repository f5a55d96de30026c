//! Tokens with fixed delimiters: the text marker, whitespace, math spans and code blocks.

use crate::chars::{id_other, is_id_continue, is_id_start, is_whitespace, white_space, xid_continue, xid_start};
use crate::peek_reader::char_at;
use crate::errors::ParserError;
use crate::peek_reader::PeekReader;
use crate::pos::{is_line_terminator, Span};
use crate::raw_tokenizer::{moved_on, next_char, read_since, skip, take, token_read, Mode, State};
use crate::text::string_from_chars;
use crate::token::RawToken;
use vstd::prelude::*;

verus! {

/// Reads the `;` that separates a tag's attributes from its content.
pub fn parse_text_marker(src: &mut PeekReader, state: &mut State) -> (r: Result<
    RawToken,
    ParserError,
>)
    requires
        old(src).wf(),
    ensures
        token_read(*old(src), *final(src), r),
        final(state).mode == Mode::TextMarker,
        final(state).inside_tag == old(state).inside_tag,
        next_char(*old(src)) == ';' ==> (r matches Ok(RawToken::TextMarker(_, c)) && c == ';'
            && final(src).index() == old(src).index() + 1),
        next_char(*old(src)) != ';' ==> (r matches Err(ParserError::IllegalChar2(_, c, _)) && c
            == next_char(*old(src))),
{
    state.mode = Mode::TextMarker;
    let pop_c = src.peek(0);
    if pop_c == ';' {
        skip(src);
        assert(src.stream().subrange(old(src).index() as int, src.index() as int) =~= seq![';']);
        Ok(RawToken::TextMarker(Span::new(), pop_c))
    } else {
        let pos = src.get_pos();
        Err(ParserError::IllegalChar2(pos, pop_c, vec![';']))
    }
}

/// Does `s` hold a line terminator?
pub open spec fn has_line_break(s: Seq<char>) -> bool {
    exists|i: int| 0 <= i < s.len() && is_line_terminator(#[trigger] s[i])
}

/// Reads a run of whitespace. Its collapsed value is a single space, or nothing
/// where the run holds a line break.
pub fn parse_whitespace(src: &mut PeekReader, state: &mut State) -> (r: Result<
    RawToken,
    ParserError,
>)
    requires
        old(src).wf(),
    ensures
        token_read(*old(src), *final(src), r),
        final(state).mode == Mode::WhitespaceAttrName,
        final(state).inside_tag == old(state).inside_tag,
        r matches Ok(RawToken::Whitespace(_, raw, val)) && (forall|i: int|
            0 <= i < raw@.len() ==> white_space(#[trigger] raw@[i])) && !white_space(
            next_char(*final(src)),
        ) && val@ == (if has_line_break(raw@) {
            Seq::<char>::empty()
        } else {
            seq![' ']
        }),
{
    state.mode = Mode::WhitespaceAttrName;
    let mut raw = String::new();
    let mut has_break = false;
    let ghost from = src.index();
    proof {
        src.lemma_wf();
        assert(raw@ =~= src.stream().subrange(from as int, from as int));
    }
    loop
        invariant
            moved_on(*old(src), *src),
            from == old(src).index(),
            read_since(*src, from, raw@),
            forall|i: int| 0 <= i < raw@.len() ==> white_space(#[trigger] raw@[i]),
            has_break == has_line_break(raw@),
        ensures
            moved_on(*old(src), *src),
            read_since(*src, from, raw@),
            forall|i: int| 0 <= i < raw@.len() ==> white_space(#[trigger] raw@[i]),
            has_break == has_line_break(raw@),
            !white_space(next_char(*src)),
        decreases src.stream().len() - src.index(),
    {
        let pop_c = src.peek(0);
        if !is_whitespace(pop_c) {
            assert(!white_space(next_char(*src)));
            break;
        }
        let ghost before = raw@;
        let c = take(src, &mut raw, Ghost(from));
        if crate::pos::is_char_new_line(c) {
            has_break = true;
        }
        assert(raw@[raw@.len() - 1] == c);
        assert(has_break == has_line_break(raw@)) by {
            if has_line_break(before) {
                let i = choose|i: int| 0 <= i < before.len() && is_line_terminator(#[trigger] before[i]);
                assert(raw@[i] == before[i]);
            }
            if has_line_break(raw@) && !is_line_terminator(c) {
                let i = choose|i: int| 0 <= i < raw@.len() && is_line_terminator(#[trigger] raw@[i]);
                assert(before[i] == raw@[i]);
            }
        }
    }
    let val = if has_break {
        String::new()
    } else {
        crate::text::string_of_char(' ')
    };
    Ok(RawToken::Whitespace(Span::new(), raw, val))
}


/// `n` backticks.
pub open spec fn ticks(n: nat) -> Seq<char> {
    Seq::new(n, |i: int| '`')
}

/// `s` opens a math span that it does not close: `$$` with no `$$` after it, or a
/// single `$` with no `$` after it.
pub open spec fn math_unclosed(s: Seq<char>) -> bool {
    if s.len() >= 2 && s[0] == '$' && s[1] == '$' {
        forall|i: int| 2 <= i < s.len() - 1 ==> !(#[trigger] s[i] == '$' && s[i + 1] == '$')
    } else {
        s.len() >= 1 && s[0] == '$' && forall|i: int| 1 <= i < s.len() ==> #[trigger] s[i] != '$'
    }
}

/// Reads a math span: `$...$` inline, or `$$...$$` for display.
pub fn parse_math(src: &mut PeekReader, state: &mut State) -> (r: Result<RawToken, ParserError>)
    requires
        old(src).wf(),
    ensures
        token_read(*old(src), *final(src), r),
        r is Ok ==> final(src).index() > old(src).index(),
        final(state).mode == Mode::Math,
        final(state).inside_tag == old(state).inside_tag,
        next_char(*old(src)) != '$' ==> r is Err,
        r matches Ok(RawToken::InlineMathText(_, raw, val)) ==> raw@ == seq!['$'] + val@ + seq!['$']
            && forall|i: int| 0 <= i < val@.len() ==> #[trigger] val@[i] != '$',
        r matches Ok(RawToken::DisplayMathText(_, raw, val)) ==> raw@ == seq!['$', '$'] + val@
            + seq!['$', '$'] && forall|i: int|
            0 <= i < val@.len() - 1 ==> !(#[trigger] val@[i] == '$' && val@[i + 1] == '$'),
        r matches Ok(t) ==> t is InlineMathText || t is DisplayMathText,
        r is Ok ==> (r->Ok_0 is DisplayMathText <==> char_at(old(src).stream(), old(src).index() + 1int)
            == '$'),
        next_char(*old(src)) == '$' ==> r is Ok || (r matches Err(ParserError::MissingTerminator(_, _))
            && next_char(*final(src)) == '\0' && math_unclosed(
            old(src).stream().subrange(old(src).index() as int, final(src).index() as int),
        )),
{
    state.mode = Mode::Math;
    let ghost from = src.index();
    proof {
        src.lemma_wf();
    }
    let pop_c = src.peek(0);
    let next_c = src.peek(1);
    let mut raw = String::new();
    let mut val: Vec<char> = Vec::new();
    assert(raw@ =~= src.stream().subrange(from as int, from as int));
    if pop_c != '$' {
        let pos = src.get_pos();
        return Err(ParserError::IllegalChar2(pos, pop_c, vec!['$']));
    }
    let long_math = next_c == '$';
    take(src, &mut raw, Ghost(from));
    if long_math {
        take(src, &mut raw, Ghost(from));
    }
    let ghost opener = raw@;
    assert(opener =~= if long_math { seq!['$', '$'] } else { seq!['$'] });
    assert(raw@ =~= opener + val@);
    loop
        invariant
            moved_on(*old(src), *src),
            from == old(src).index(),
            read_since(*src, from, raw@),
            opener == if long_math { seq!['$', '$'] } else { seq!['$'] },
            raw@ == opener + val@,
            state.mode == Mode::Math,
            state.inside_tag == old(state).inside_tag,
            next_char(*old(src)) == '$',
            long_math == (char_at(old(src).stream(), old(src).index() + 1int) == '$'),
            !long_math ==> forall|i: int| 0 <= i < val@.len() ==> #[trigger] val@[i] != '$',
            long_math ==> forall|i: int|
                0 <= i < val@.len() - 1 ==> !(#[trigger] val@[i] == '$' && val@[i + 1] == '$'),
            long_math && val@.len() > 0 ==> !(val@.last() == '$' && next_char(*src) == '$'),
        decreases src.stream().len() - src.index(),
    {
        let pop_c = src.peek(0);
        let next_c = src.peek(1);
        if pop_c == '\0' {
            let pos = src.get_pos();
            proof {
                let sq = raw@;
                if long_math {
                    assert forall|i: int| 2 <= i < sq.len() - 1 implies !(#[trigger] sq[i] == '$' && sq[i
                        + 1] == '$') by {
                        assert(sq[i] == val@[i - 2]);
                        assert(sq[i + 1] == val@[i - 1]);
                    }
                } else {
                    assert(sq.len() >= 2 ==> sq[1] == char_at(old(src).stream(), old(src).index() + 1int)) by {
                        if sq.len() >= 2 {
                            assert(sq[1] == src.stream().subrange(from as int, src.index() as int)[1]);
                        }
                    }
                    assert forall|i: int| 1 <= i < sq.len() implies #[trigger] sq[i] != '$' by {
                        assert(sq[i] == val@[i - 1]);
                    }
                }
            }
            return Err(ParserError::MissingTerminator(pos, '$'));
        }
        proof {
            src.lemma_wf();
        }
        let ghost idx = src.index();
        take(src, &mut raw, Ghost(from));
        if long_math && pop_c == '$' && next_c == '$' {
            take(src, &mut raw, Ghost(from));
            assert(raw@ =~= opener + val@ + seq!['$', '$']);
            return Ok(RawToken::DisplayMathText(Span::new(), raw, string_from_chars(&val)));
        }
        if !long_math && pop_c == '$' {
            assert(raw@ =~= opener + val@ + seq!['$']);
            return Ok(RawToken::InlineMathText(Span::new(), raw, string_from_chars(&val)));
        }
        let ghost before = val@;
        val.push(pop_c);
        assert(raw@ =~= opener + val@);
        assert(next_c == next_char(*src));
        assert(forall|i: int| 0 <= i < before.len() ==> val@[i] == before[i]);
    }
}


/// `raw` is a fence of `n` backticks around `lang`, the separator `sep` and `content`.
pub open spec fn fenced(
    raw: Seq<char>,
    lang: Seq<char>,
    content: Seq<char>,
    n: nat,
    sep: Seq<char>,
) -> bool {
    &&& n >= 1
    &&& raw == ticks(n) + lang + sep + content + ticks(n)
    &&& (lang.len() == 0 <==> sep.len() == 0)
    &&& (sep.len() == 0 || sep == seq!['\t', '\t'] || sep == seq!['\n'])
    &&& runs_continue(content, n)
    &&& lang.len() > 0 ==> lang_run(lang)
    &&& lang.len() == 0 ==> !starts_with_lang(content)
    &&& lang.len() == 0 ==> content.len() > 0 && content[0] != '`'
}

/// `s` ends with `n` backticks.
pub open spec fn ends_with_ticks(s: Seq<char>, n: nat) -> bool {
    s.len() >= n && forall|k: int| s.len() - n <= k < s.len() ==> #[trigger] s[k] == '`'
}

/// `s` opens a code block with a run of exactly `n` backticks that nothing in the rest
/// of `s` closes.
pub open spec fn unclosed(s: Seq<char>, n: nat) -> bool {
    &&& 1 <= n <= s.len()
    &&& s.take(n as int) == ticks(n)
    &&& s.len() > n ==> s[n as int] != '`'
    &&& runs_continue(s.skip(n as int), n)
    &&& !ends_with_ticks(s.skip(n as int), n)
}

/// In `content`, every `n` backticks in a row are followed by another backtick: no
/// run long enough to close the block ends inside it.
pub open spec fn runs_continue(content: Seq<char>, n: nat) -> bool {
    forall|j: int|
        n <= j < content.len() && (forall|k: int| j - n <= k < j ==> #[trigger] content[k] == '`')
            ==> #[trigger] content[j] == '`'
}

/// May `c` stand in a language name, as its first character or after it?
pub open spec fn lang_char(c: char, first: bool) -> bool {
    &&& c != '\0'
    &&& c != '`'
    &&& !white_space(c)
    &&& if first {
        id_other(c) || xid_start(c)
    } else {
        id_other(c) || xid_continue(c)
    }
}

/// Every character of `s` may stand where it stands in a language name.
pub open spec fn lang_run(s: Seq<char>) -> bool {
    forall|i: int| 0 <= i < s.len() ==> lang_char(#[trigger] s[i], i == 0)
}

/// Does `content` begin with a language name and the two tabs or newline after one?
pub open spec fn starts_with_lang(content: Seq<char>) -> bool {
    exists|k: int|
        0 < k < content.len() && lang_run(#[trigger] content.take(k)) && (content[k] == '\n' || (
        k + 1 < content.len() && content[k] == '\t' && content[k + 1] == '\t'))
}

/// `raw` is a fenced code block with language `lang` and content `content`.
pub open spec fn code_block_shape(raw: Seq<char>, lang: Seq<char>, content: Seq<char>) -> bool {
    exists|n: nat, sep: Seq<char>| fenced(raw, lang, content, n, sep)
}

/// Where no language was read, the content of a block is what follows its opening run,
/// and it does not start like a language name.
proof fn lemma_no_lang(
    raw: Seq<char>,
    st: Seq<char>,
    from: int,
    idx: int,
    n: int,
    body: Seq<char>,
    cand0: Seq<char>,
    c0: char,
    c1: char,
)
    requires
        0 <= from <= idx <= st.len(),
        n >= 1,
        raw == st.subrange(from, idx),
        raw == ticks(n as nat) + body + ticks(n as nat),
        char_at(st, from + n) != '`',
        cand0.len() <= body.len(),
        body.take(cand0.len() as int) == cand0,
        lang_run(cand0),
        c0 == char_at(st, from + n + cand0.len()),
        c1 == char_at(st, from + n + cand0.len() + 1),
        !lang_char(c0, cand0.len() == 0),
        cand0.len() > 0 ==> !(c0 == '\n' || (c0 == '\t' && c1 == '\t')),
    ensures
        body.len() > 0,
        body[0] != '`',
        !starts_with_lang(body),
{
    let tb = ticks(n as nat) + body;
    assert(raw == tb + ticks(n as nat));
    assert(raw.len() == idx - from);
    assert forall|k: int| 0 <= k < body.len() implies body[k] == st[from + n + k] by {
        assert(raw[n + k] == tb[n + k]);
        assert(tb[n + k] == body[k]);
        assert(raw[n + k] == st.subrange(from, idx)[n + k]);
    }
    assert(raw[n] == st.subrange(from, idx)[n]);
    assert(body.len() > 0) by {
        if body.len() == 0 {
            assert(raw[n] == ticks(n as nat)[0]);
        }
    }
    let cl = cand0.len() as int;
    assert forall|k: int| 0 <= k < cl implies body[k] == cand0[k] by {
        assert(body.take(cl)[k] == body[k]);
    }
    if starts_with_lang(body) {
        let k = choose|k: int|
            0 < k < body.len() && lang_run(#[trigger] body.take(k)) && (body[k] == '\n' || (k + 1
                < body.len() && body[k] == '\t' && body[k + 1] == '\t'));
        if k < cl {
            assert(lang_char(cand0[k], k == 0));
            assert(body[k] == cand0[k]);
        } else if k == cl {
            assert(c0 == body[k]);
            if k + 1 < body.len() {
                assert(body[k + 1] == st[from + n + cl + 1]);
            }
        } else {
            assert(body.take(k)[cl] == body[cl]);
            assert(lang_char(body.take(k)[cl], cl == 0));
        }
    }
}

/// Appends `k` backticks to `v`.
fn push_ticks(v: &mut Vec<char>, k: usize)
    ensures
        final(v)@ == old(v)@ + ticks(k as nat),
{
    let mut i: usize = 0;
    while i < k
        invariant
            i <= k,
            v@ == old(v)@ + ticks(i as nat),
        decreases k - i,
    {
        v.push('`');
        i = i + 1;
        assert(v@ =~= old(v)@ + ticks(i as nat));
    }
}

/// Reads a code block fenced by a run of `n` backticks. Right after the opening run,
/// an identifier followed by two tabs or by a newline names the language. The content
/// ends at the first run of `n` or more backticks that no backtick follows; backticks
/// of such a run beyond `n` belong to the content.
#[verifier::rlimit(100)]
pub fn parse_code_block(src: &mut PeekReader, state: &mut State) -> (r: Result<
    RawToken,
    ParserError,
>)
    requires
        old(src).wf(),
    ensures
        token_read(*old(src), *final(src), r),
        r is Ok ==> final(src).index() > old(src).index(),
        final(state).mode == Mode::CodeBlock,
        final(state).inside_tag == old(state).inside_tag,
        next_char(*old(src)) != '`' ==> r is Err,
        r matches Ok(t) ==> t is CodeBlock,
        r matches Ok(RawToken::CodeBlock(_, raw, lang, content)) ==> code_block_shape(
            raw@,
            lang@,
            content@,
        ),
        r is Ok ==> next_char(*final(src)) != '`',
        ({
            let s = old(src).stream().subrange(old(src).index() as int, final(src).index() as int);
            r is Err ==> {
                ||| (next_char(*old(src)) != '`' && r matches Err(ParserError::IllegalChar2(_, _, _)))
                ||| (r matches Err(ParserError::MissingTerminator(_, _)) && next_char(*final(src))
                    == '\0' && exists|n: nat| unclosed(s, n))
            }
        }),
{
    state.mode = Mode::CodeBlock;
    let ghost from = src.index();
    proof {
        src.lemma_wf();
    }
    let mut raw = String::new();
    assert(raw@ =~= src.stream().subrange(from as int, from as int));
    let mut n: usize = 0;
    assert(raw@ =~= ticks(0));
    while src.peek(0) == '`'
        invariant
            moved_on(*old(src), *src),
            from == old(src).index(),
            read_since(*src, from, raw@),
            raw@ == ticks(n as nat),
            n == src.index() - from,
            n > 0 ==> next_char(*old(src)) == '`',
            state.mode == Mode::CodeBlock,
            state.inside_tag == old(state).inside_tag,
        decreases src.stream().len() - src.index(),
    {
        proof {
            src.lemma_wf();
        }
        take(src, &mut raw, Ghost(from));
        n = n + 1;
        assert(raw@ =~= ticks(n as nat));
    }
    if n == 0 {
        let pos = src.get_pos();
        let c = src.peek(0);
        return Err(ParserError::IllegalChar2(pos, c, vec!['`']));
    }
    let ghost opened = src.index();
    assert(next_char(*src) != '`');
    let mut cand: Vec<char> = Vec::new();
    let mut lang: Vec<char> = Vec::new();
    let mut content: Vec<char> = Vec::new();
    let ghost mut sep: Seq<char> = Seq::empty();
    assert(raw@ =~= ticks(n as nat) + cand@);
    loop
        invariant_except_break
            raw@ == ticks(n as nat) + cand@,
            lang@.len() == 0,
            content@.len() == 0,
            sep.len() == 0,
            forall|i: int| 0 <= i < cand@.len() ==> #[trigger] cand@[i] != '`',
            lang_run(cand@),
        invariant
            moved_on(*old(src), *src),
            from == old(src).index(),
            read_since(*src, from, raw@),
            n >= 1,
            state.mode == Mode::CodeBlock,
            state.inside_tag == old(state).inside_tag,
            next_char(*old(src)) == '`',
            opened == from + n,
            opened <= src.index(),
            char_at(src.stream(), opened as int) != '`',
        ensures
            moved_on(*old(src), *src),
            read_since(*src, from, raw@),
            raw@ == ticks(n as nat) + lang@ + sep + content@,
            (lang@.len() == 0 <==> sep.len() == 0),
            (sep.len() == 0 || sep == seq!['\t', '\t'] || sep == seq!['\n']),
            forall|i: int| 0 <= i < content@.len() ==> #[trigger] content@[i] != '`',
            lang@.len() > 0 ==> lang_run(lang@),
            lang@.len() == 0 ==> {
                let cl = content@.len();
                let c0 = next_char(*src);
                let c1 = char_at(src.stream(), src.index() + 1int);
                &&& lang_run(content@)
                &&& !lang_char(c0, cl == 0)
                &&& cl > 0 ==> !(c0 == '\n' || (c0 == '\t' && c1 == '\t'))
            },
        decreases src.stream().len() - src.index(),
    {
        let c = src.peek(0);
        let c2 = src.peek(1);
        proof {
            src.lemma_wf();
        }
        if cand.len() > 0 && c == '\t' && c2 == '\t' {
            take(src, &mut raw, Ghost(from));
            take(src, &mut raw, Ghost(from));
            lang = cand;
            proof {
                sep = seq!['\t', '\t'];
            }
            assert(raw@ =~= ticks(n as nat) + lang@ + sep + content@);
            break;
        }
        if cand.len() > 0 && c == '\n' {
            take(src, &mut raw, Ghost(from));
            lang = cand;
            proof {
                sep = seq!['\n'];
            }
            assert(raw@ =~= ticks(n as nat) + lang@ + sep + content@);
            break;
        }
        let fits = c != '\0' && c != '`' && !is_whitespace(c) && if cand.len() == 0 {
            is_id_start(c)
        } else {
            is_id_continue(c)
        };
        if !fits {
            content = cand;
            assert(raw@ =~= ticks(n as nat) + lang@ + sep + content@);
            break;
        }
        take(src, &mut raw, Ghost(from));
        let ghost c0 = cand@;
        cand.push(c);
        assert(raw@ =~= ticks(n as nat) + cand@);
        assert(forall|i: int| 0 <= i < c0.len() ==> cand@[i] == c0[i]);
        assert(lang_run(cand@)) by {
            assert forall|i: int| 0 <= i < cand@.len() implies lang_char(#[trigger] cand@[i], i == 0) by {
                if i < c0.len() {
                    assert(cand@[i] == c0[i]);
                }
            }
        }
    }
    let ghost head = ticks(n as nat) + lang@ + sep;
    let ghost cand0 = content@;
    let ghost at = src.index();
    let ghost c0 = next_char(*src);
    let ghost c1 = char_at(src.stream(), src.index() + 1int);
    assert(lang@.len() == 0 ==> at == from + n + cand0.len()) by {
        if lang@.len() == 0 {
            assert(raw@.len() == n + content@.len());
        }
    }
    let mut run: usize = 0;
    assert(runs_continue(content@, n as nat)) by {
        assert forall|j: int|
            n <= j < content@.len() && (forall|k: int| j - n <= k < j ==> #[trigger] content@[k] == '`')
                implies #[trigger] content@[j] == '`' by {
            assert(content@[j - 1] == '`');
        }
    }
    assert(content@.len() == 0 || content@.last() != '`') by {
        if content@.len() > 0 {
            assert(content@.last() == content@[content@.len() - 1]);
        }
    }
    assert(raw@ =~= head + content@ + ticks(0));
    loop
        invariant
            moved_on(*old(src), *src),
            from == old(src).index(),
            read_since(*src, from, raw@),
            n >= 1,
            head == ticks(n as nat) + lang@ + sep,
            raw@ == head + content@ + ticks(run as nat),
            run <= src.index() - from,
            state.mode == Mode::CodeBlock,
            state.inside_tag == old(state).inside_tag,
            next_char(*old(src)) == '`',
            (lang@.len() == 0 <==> sep.len() == 0),
            (sep.len() == 0 || sep == seq!['\t', '\t'] || sep == seq!['\n']),
            runs_continue(content@, n as nat),
            content@.len() == 0 || content@.last() != '`',
            opened == from + n,
            opened <= src.index(),
            char_at(src.stream(), opened as int) != '`',
            forall|i: int| 0 <= i < lang@.len() ==> #[trigger] lang@[i] != '`',
            forall|i: int| 0 <= i < sep.len() ==> #[trigger] sep[i] != '`',
            cand0.len() <= content@.len(),
            content@.take(cand0.len() as int) == cand0,
            at <= src.index(),
            c0 == char_at(src.stream(), at as int),
            c1 == char_at(src.stream(), at + 1int),
            lang@.len() > 0 ==> lang_run(lang@),
            lang@.len() == 0 ==> {
                &&& lang_run(cand0)
                &&& !lang_char(c0, cand0.len() == 0)
                &&& cand0.len() > 0 ==> !(c0 == '\n' || (c0 == '\t' && c1 == '\t'))
                &&& at == from + n + cand0.len()
                &&& sep.len() == 0
            },
        decreases src.stream().len() - src.index(),
    {
        proof {
            src.lemma_wf();
        }
        let c = src.peek(0);
        if c == '`' {
            take(src, &mut raw, Ghost(from));
            run = run + 1;
            assert(raw@ =~= head + content@ + ticks(run as nat));
        } else if run >= n {
            let ghost before = content@;
            push_ticks(&mut content, run - n);
            assert(runs_continue(content@, n as nat)) by {
                assert forall|j: int|
                    n <= j < content@.len() && (forall|k: int| j - n <= k < j ==> #[trigger] content@[k] == '`')
                        implies #[trigger] content@[j] == '`' by {
                    if j < before.len() {
                        assert forall|k: int| j - n <= k < j implies #[trigger] before[k] == '`' by {
                            assert(content@[k] == before[k]);
                        }
                        assert(content@[j] == before[j]);
                    } else {
                        assert(content@[j] == ticks((run - n) as nat)[j - before.len()]);
                    }
                }
            }
            assert(ticks(run as nat) =~= ticks((run - n) as nat) + ticks(n as nat));
            assert(raw@ =~= head + content@ + ticks(n as nat));
            let lang_s = string_from_chars(&lang);
            let content_s = string_from_chars(&content);
            assert(raw@ == ticks(n as nat) + lang_s@ + sep + content_s@ + ticks(n as nat)) by {
                assert(head + content@ + ticks(n as nat) =~= ticks(n as nat) + lang_s@ + sep
                    + content_s@ + ticks(n as nat));
            }
            proof {
                if lang@.len() == 0 {
                    assert(head =~= ticks(n as nat));
                    assert(content@.take(cand0.len() as int) =~= before.take(cand0.len() as int));
                    lemma_no_lang(raw@, src.stream(), from as int, src.index() as int, n as int, content@, cand0, c0, c1);
                }
            }
            assert(fenced(raw@, lang_s@, content_s@, n as nat, sep));
            return Ok(RawToken::CodeBlock(Span::new(), raw, lang_s, content_s));
        } else if c == '\0' {
            let pos = src.get_pos();
            proof {
                let sq = raw@;
                let st = src.stream();
                let after = sq.skip(n as int);
                let x = lang@ + sep;
                let xl = x.len() as int;
                assert(after =~= x + content@ + ticks(run as nat));
                assert(sq.take(n as int) =~= ticks(n as nat));
                if sq.len() > n {
                    assert(sq[n as int] == st.subrange(from as int, src.index() as int)[n as int]);
                }
                assert forall|i: int| 0 <= i < xl implies #[trigger] x[i] != '`' by {
                    if i < lang@.len() {
                    } else {
                        assert(x[i] == sep[i - lang@.len()]);
                    }
                }
                assert(runs_continue(after, n as nat)) by {
                    assert forall|j: int|
                        n <= j < after.len() && (forall|k: int| j - n <= k < j ==> #[trigger] after[k] == '`')
                            implies #[trigger] after[j] == '`' by {
                        if j >= xl + content@.len() {
                            assert(after[j] == ticks(run as nat)[j - xl - content@.len()]);
                        } else {
                            if j - n < xl {
                                assert(after[j - n] == x[j - n]);
                            } else {
                                assert forall|k: int| j - n - xl <= k < j - xl implies #[trigger] content@[k] == '`' by {
                                    assert(after[k + xl] == content@[k]);
                                }
                                assert(after[j] == content@[j - xl]);
                            }
                        }
                    }
                }
                assert(!ends_with_ticks(after, n as nat)) by {
                    if ends_with_ticks(after, n as nat) {
                        let q = after.len() - 1 - run;
                        assert(after.len() - n <= q < after.len());
                        assert(after[q] == '`');
                        if content@.len() > 0 {
                            assert(after[q] == content@.last());
                        } else {
                            assert(after[q] == x[q]);
                        }
                    }
                }
                assert(unclosed(sq, n as nat));
            }
            return Err(ParserError::MissingTerminator(pos, '`'));
        } else {
            let ghost before = content@;
            push_ticks(&mut content, run);
            let ghost mid = content@;
            run = 0;
            take(src, &mut raw, Ghost(from));
            content.push(c);
            assert(raw@ =~= head + content@ + ticks(0));
            assert(runs_continue(content@, n as nat)) by {
                assert forall|j: int|
                    n <= j < content@.len() && (forall|k: int| j - n <= k < j ==> #[trigger] content@[k] == '`')
                        implies #[trigger] content@[j] == '`' by {
                    if j < before.len() {
                        assert forall|k: int| j - n <= k < j implies #[trigger] before[k] == '`' by {
                            assert(content@[k] == before[k]);
                        }
                        assert(content@[j] == before[j]);
                    } else if j < mid.len() {
                        assert(content@[j] == mid[j]);
                        assert(mid[j] == ticks((mid.len() - before.len()) as nat)[j - before.len()]);
                    } else {
                        assert(j == mid.len());
                        assert(j - n <= before.len() - 1);
                        let k = before.len() - 1;
                        assert(content@[k] == before[k]);
                        assert(before.last() == before[k]);
                    }
                }
            }
        }
    }
}

} // verus!
