//! Assembles tokens into tags: a tag with its attributes, or text as a virtual tag.

use crate::errors::ParserError;
use crate::peek_reader::PeekReader;
use crate::pos::Span;
use crate::raw_tokenizer::RawTokenizer;
use crate::token::{AttrValue, BasicName, RawToken};
use vstd::prelude::*;
use vstd::string::StringExecFns;

verus! {

/// The kind of a tag.
#[derive(Debug, Clone, Copy, PartialEq, Eq, Structural)]
pub enum TagType {
    CurlyFull,
    CurlyStart,
    CurlyEnd,
    PointyFull,
    PointyStart,
    PointyEnd,
    /// Not a tag of the input: text, wrapped so that it reads like one.
    Virtual,
}

impl TagType {
    pub open spec fn spec_is_pointy(&self) -> bool {
        *self == TagType::PointyFull || *self == TagType::PointyStart || *self == TagType::PointyEnd
    }

    pub open spec fn spec_is_curly(&self) -> bool {
        *self == TagType::CurlyFull || *self == TagType::CurlyStart || *self == TagType::CurlyEnd
    }

    pub fn is_pointy(&self) -> (r: bool)
        ensures
            r == self.spec_is_pointy(),
    {
        match self {
            TagType::PointyFull | TagType::PointyStart | TagType::PointyEnd => true,
            _ => false,
        }
    }

    pub fn is_curly(&self) -> (r: bool)
        ensures
            r == self.spec_is_curly(),
    {
        match self {
            TagType::CurlyFull | TagType::CurlyStart | TagType::CurlyEnd => true,
            _ => false,
        }
    }
}

/// An attribute: positional where its name is empty, named otherwise.
#[derive(Debug, Clone, PartialEq, Eq)]
pub struct Attr {
    pub name: BasicName,
    pub val: AttrValue,
}

impl Attr {
    pub open spec fn spec_is_named(&self) -> bool {
        !self.name.spec_is_empty()
    }

    pub fn is_named(&self) -> (r: bool)
        ensures
            r == self.spec_is_named(),
    {
        !self.name.is_empty()
    }
}

/// How many of `attrs` are positional.
pub open spec fn positional_count(attrs: Seq<Attr>) -> nat
    decreases attrs.len(),
{
    if attrs.len() == 0 {
        0
    } else if attrs.last().spec_is_named() {
        positional_count(attrs.drop_last())
    } else {
        positional_count(attrs.drop_last()) + 1
    }
}

/// A tag read from the input, with the text it was read from and where.
#[derive(Debug, Clone, PartialEq, Eq)]
pub struct Tag {
    pub name: BasicName,
    pub kind: TagType,
    pub raw: String,
    pub attrs: Vec<Attr>,
    pub span: Span,
}

impl Tag {
    /// The `pos`-th positional attribute, counting from 1.
    pub fn get_pos_attr(&self, pos: usize) -> (r: Option<&Attr>)
        ensures
            r matches Some(a) ==> exists|i: int|
                0 <= i < self.attrs@.len() && *a == self.attrs@[i] && !a.spec_is_named()
                    && positional_count(self.attrs@.take(i)) + 1 == pos,
            r is None ==> !(exists|i: int|
                0 <= i < self.attrs@.len() && !self.attrs@[i].spec_is_named() && positional_count(
                    #[trigger] self.attrs@.take(i),
                ) + 1 == pos),
    {
        let mut counter: usize = 0;
        let mut i: usize = 0;
        while i < self.attrs.len()
            invariant
                i <= self.attrs@.len(),
                counter == positional_count(self.attrs@.take(i as int)),
                counter <= i,
                forall|j: int|
                    0 <= j < i ==> !(!self.attrs@[j].spec_is_named() && positional_count(
                        #[trigger] self.attrs@.take(j),
                    ) + 1 == pos),
            decreases self.attrs@.len() - i,
        {
            let a = &self.attrs[i];
            assert(self.attrs@.take(i + 1).drop_last() =~= self.attrs@.take(i as int));
            if !a.is_named() {
                if counter + 1 == pos {
                    return Some(a);
                }
                counter = counter + 1;
            }
            i = i + 1;
        }
        None
    }

    /// The first attribute named `name`; `None` for the empty name, which would
    /// only find positional ones.
    pub fn get_named_attr(&self, name: &BasicName) -> (r: Option<&Attr>)
        ensures
            name.spec_is_empty() ==> r is None,
            r matches Some(a) ==> exists|i: int|
                0 <= i < self.attrs@.len() && *a == self.attrs@[i] && a.name.same(name) && forall|
                    j: int,
                | 0 <= j < i ==> !(#[trigger] self.attrs@[j]).name.same(name),
            !name.spec_is_empty() && r is None ==> forall|i: int|
                0 <= i < self.attrs@.len() ==> !(#[trigger] self.attrs@[i]).name.same(name),
    {
        if name.is_empty() {
            return None;
        }
        let mut i: usize = 0;
        while i < self.attrs.len()
            invariant
                i <= self.attrs@.len(),
                !name.spec_is_empty(),
                forall|j: int| 0 <= j < i ==> !(#[trigger] self.attrs@[j]).name.same(name),
            decreases self.attrs@.len() - i,
        {
            let a = &self.attrs[i];
            if a.name.equals(name) {
                return Some(a);
            }
            i = i + 1;
        }
        None
    }
}


/// The name and value of each attribute.
pub open spec fn pairs_of(attrs: Seq<Attr>) -> Seq<(BasicName, AttrValue)> {
    attrs.map_values(|a: Attr| (a.name, a.val))
}

/// The attributes that the tokens `ts` spell: each name token followed by a value token.
pub open spec fn attr_pairs(ts: Seq<RawToken>) -> Seq<(BasicName, AttrValue)>
    decreases ts.len(),
{
    if ts.len() == 0 {
        Seq::empty()
    } else if ts.len() >= 2 && ts.last() is AttributeValue && ts[ts.len() - 2] is AttributeName {
        attr_pairs(ts.take(ts.len() - 2)).push(
            (ts[ts.len() - 2]->AttributeName_2, ts.last()->AttributeValue_2),
        )
    } else {
        attr_pairs(ts.drop_last())
    }
}

/// Between `lo` and `hi`, the tokens are whitespace and attributes, each name followed
/// by its value.
pub open spec fn attr_body(ts: Seq<RawToken>, lo: int, hi: int) -> bool {
    &&& forall|i: int|
        lo <= i < hi ==> (#[trigger] ts[i]) is Whitespace || ts[i] is AttributeName || ts[i] is AttributeValue
    &&& forall|i: int|
        lo <= i < hi && (#[trigger] ts[i]) is AttributeName ==> i + 1 < hi && ts[i + 1] is AttributeValue
}

/// The tokens of a start tag end with the marker or closer that ended its attributes.
pub open spec fn ended(ts: Seq<RawToken>, pointy: bool) -> bool {
    ts.len() >= 2 && (ts.last() is TextMarker || (!pointy && ts.last() is CurlyTagEnd) || (pointy
        && ts.last() is PointyTagTail))
}

/// `tag` is a virtual tag named `name` whose one attribute holds `val`.
pub open spec fn virtual_of(tag: Tag, name: Seq<char>, val: String) -> bool {
    &&& tag.kind == TagType::Virtual
    &&& tag.name.local@ == name
    &&& tag.name.special
    &&& tag.name.view@.len() == 0
    &&& tag.name.prefix@.len() == 0
    &&& tag.attrs@[0].name.local@ == seq!['v', 'a', 'l']
    &&& tag.attrs@[0].name.special
    &&& tag.attrs@[0].name.view@.len() == 0
    &&& tag.attrs@[0].name.prefix@.len() == 0
    &&& tag.attrs@.len() == 1
    &&& tag.attrs@[0].val == AttrValue::String(val)
}

/// `tag` is what the tokens `ts` make: the first token decides the kind of tag, and
/// the rest supply its attributes and what ends them.
pub open spec fn tag_of_tokens(tag: Tag, ts: Seq<RawToken>) -> bool {
    &&& ts.len() >= 1
    &&& match ts[0] {
        RawToken::InlineText(_, _, v) => ts.len() == 1 && virtual_of(tag, seq!['t', 'e', 'x', 't'], v),
        RawToken::Whitespace(_, _, v) => ts.len() == 1 && virtual_of(tag, seq!['t', 'e', 'x', 't'], v),
        RawToken::InlineMathText(_, _, v) => ts.len() == 1 && virtual_of(tag, seq!['m', 'a', 't', 'h'], v),
        RawToken::DisplayMathText(_, _, v) => ts.len() == 1 && virtual_of(tag, seq!['m', 'a', 't', 'h'], v),
        RawToken::CodeBlock(_, _, _, v) => ts.len() == 1 && virtual_of(tag, seq!['c', 'o', 'd', 'e'], v),
        RawToken::CurlyTagEnd(_, _) => ts.len() == 1 && tag.kind == TagType::CurlyEnd && tag.attrs@.len() == 0,
        RawToken::PointyTagTail(_, _, name) => ts.len() == 1 && tag.kind == TagType::PointyEnd
            && tag.name == name && tag.attrs@.len() == 0,
        RawToken::CurlyTagStart(_, _, name) => {
            &&& tag.name == name
            &&& pairs_of(tag.attrs@) == attr_pairs(ts.drop_first())
            &&& (tag.kind == TagType::CurlyStart || tag.kind == TagType::CurlyFull)
            &&& (tag.kind == TagType::CurlyFull <==> ts.len() >= 2 && ts.last() is CurlyTagEnd)
            &&& attr_body(ts, 1, if ended(ts, false) { ts.len() - 1 } else { ts.len() as int })
        },
        RawToken::PointyTagHead(_, _, name) => {
            &&& tag.name == name
            &&& pairs_of(tag.attrs@) == attr_pairs(ts.drop_first())
            &&& (tag.kind == TagType::PointyStart || tag.kind == TagType::PointyFull)
            &&& (tag.kind == TagType::PointyFull <==> ts.len() >= 2 && ts.last() is PointyTagTail)
            &&& attr_body(ts, 1, if ended(ts, true) { ts.len() - 1 } else { ts.len() as int })
        },
        _ => false,
    }
}

/// Sequences with the same first `n` elements agree on each of them.
proof fn lemma_take_index<T>(a: Seq<T>, b: Seq<T>, n: int, i: int)
    requires
        0 <= i < n <= a.len(),
        n <= b.len(),
        a.take(n) == b.take(n),
    ensures
        a[i] == b[i],
{
    assert(a[i] == a.take(n)[i]);
    assert(b[i] == b.take(n)[i]);
}

/// Which stack of open tags a tag belongs to: `None` for curly tags, the view's name
/// for pointy ones.
pub open spec fn stack_key(tag: Tag) -> Option<Seq<char>> {
    if tag.kind.spec_is_pointy() {
        Some(tag.name.view@)
    } else {
        None
    }
}

/// Does the end tag named `end` close the open tag named `open`? An end with neither
/// prefix nor local part (`|>`, `|(view)>`) closes any.
pub open spec fn closes(end: BasicName, open: BasicName) -> bool {
    (end.prefix@.len() == 0 && end.local@.len() == 0) || (end.prefix@ == open.prefix@
        && end.local@ == open.local@)
}

/// The errors that reading a tag from `p` to `q` may report: the error the tokenizer
/// returned last, unchanged; a token that is no value after an attribute's name; a token
/// that cannot start a tag; or an end tag with nothing to close.
pub open spec fn parser_error(p: BasicParser, q: BasicParser, e: ParserError) -> bool {
    ||| q.last_result() == Some(Err::<RawToken, ParserError>(e))
    ||| match e {
        ParserError::NotAttributeValue(sp, raw) => {
            let ts = q.tokens();
            &&& ts.len() >= 2
            &&& !(ts.last() is AttributeValue)
            &&& ts[ts.len() - 2] is AttributeName
            &&& sp == ts.last().span_view()
            &&& raw@ == ts.last().raw_view()
        },
        ParserError::UnexpectedToken(sp, raw) => {
            let ts = q.tokens();
            &&& p.taken() < ts.len()
            &&& (ts[p.taken() as int] is TextMarker || ts[p.taken() as int] is AttributeName
                || ts[p.taken() as int] is AttributeValue)
            &&& sp == ts[p.taken() as int].span_view()
            &&& raw@ == ts[p.taken() as int].raw_view()
        },
        ParserError::MismatchedEnd(_, _) => true,
        _ => false,
    }
}

/// Is `tag` an end tag?
pub open spec fn is_end(tag: Tag) -> bool {
    tag.kind == TagType::CurlyEnd || tag.kind == TagType::PointyEnd
}

/// Does the end tag `tag` find a tag to close among those open in `p`?
pub open spec fn end_closes(p: BasicParser, tag: Tag) -> bool {
    let open = p.open_tags(stack_key(tag));
    &&& open.len() > 0
    &&& tag.kind == TagType::PointyEnd ==> closes(tag.name, open.last())
}

/// How reading `tag` changes the open tags, from `p` to `q`: a start tag is pushed on
/// its stack, an end tag pops the tag it closes, and other tags change nothing.
pub open spec fn nesting_step(p: BasicParser, q: BasicParser, tag: Tag) -> bool {
    let key = stack_key(tag);
    &&& forall|k: Option<Seq<char>>| k != key ==> q.open_tags(k) == p.open_tags(k)
    &&& (tag.kind == TagType::CurlyStart || tag.kind == TagType::PointyStart) ==> q.open_tags(key)
        == p.open_tags(key).push(tag.name)
    &&& is_end(tag) ==> end_closes(p, tag) && q.open_tags(key) == p.open_tags(key).drop_last()
    &&& !(tag.kind == TagType::CurlyStart || tag.kind == TagType::PointyStart || is_end(tag))
        ==> q.open_tags(key) == p.open_tags(key)
}

/// The body of a tag reads the same in any token sequence with the same prefix.
proof fn lemma_body_prefix(a: Seq<RawToken>, b: Seq<RawToken>, lo: int, hi: int)
    requires
        attr_body(a, lo, hi),
        0 <= lo,
        hi <= a.len(),
        hi <= b.len(),
        a.take(hi) == b.take(hi),
    ensures
        attr_body(b, lo, hi),
{
    assert forall|i: int| lo <= i < hi implies b[i] == a[i] by {
        assert(b[i] == b.take(hi)[i]);
        assert(a[i] == a.take(hi)[i]);
    }
}

/// A body grows by whitespace, or by a name and its value.
proof fn lemma_body_grow(b: Seq<RawToken>, lo: int, hi: int, k: int)
    requires
        0 <= lo <= hi,
        hi + k <= b.len(),
        attr_body(b, lo, hi),
        k == 1 ==> b[hi] is Whitespace,
        k == 2 ==> b[hi] is AttributeName && b[hi + 1] is AttributeValue,
        k == 1 || k == 2,
    ensures
        attr_body(b, lo, hi + k),
{
}

/// The body of the tag that starts at `i0` and ends before `n`, counted from the tag.
proof fn lemma_body_sub(ts: Seq<RawToken>, i0: int, n: int, hi: int)
    requires
        0 <= i0 < n <= ts.len(),
        i0 + 1 <= hi <= n,
        attr_body(ts, i0 + 1, hi),
    ensures
        attr_body(ts.subrange(i0, n), 1, hi - i0),
{
    let t = ts.subrange(i0, n);
    assert forall|i: int| 1 <= i < hi - i0 implies t[i] == ts[i0 + i] by {}
    assert forall|i: int| 1 <= i < hi - i0 && (#[trigger] t[i]) is AttributeName implies i + 1 < hi - i0
        && t[i + 1] is AttributeValue by {
        assert(t[i] == ts[i0 + i]);
        assert(t[i + 1] == ts[i0 + i + 1]);
    }
}

/// Reads tags from a tokenizer, one at a time, and keeps the tags left open: one stack
/// for curly tags, and one for each view of pointy tags.
pub struct BasicParser {
    tokenizer: RawTokenizer,
    views: Vec<String>,
    stacks: Vec<Vec<BasicName>>,
}

impl BasicParser {
    /// The characters of the input.
    pub closed spec fn stream(&self) -> Seq<char> {
        self.tokenizer.stream()
    }

    /// How many characters of the input the tags read so far cover.
    pub closed spec fn offset(&self) -> nat {
        match self.tokenizer.pending() {
            Some(Ok(t)) => (self.tokenizer.consumed() - t.raw_view().len()) as nat,
            _ => self.tokenizer.consumed(),
        }
    }

    /// The tokens read from the input so far.
    pub closed spec fn tokens(&self) -> Seq<RawToken> {
        self.tokenizer.produced()
    }

    /// What the tokenizer returned last.
    pub closed spec fn last_result(&self) -> Option<Result<RawToken, ParserError>> {
        self.tokenizer.last_result()
    }

    /// The token handed back to be read again, if any.
    pub closed spec fn pending_token(&self) -> Option<Result<RawToken, ParserError>> {
        self.tokenizer.pending()
    }

    /// Whether the tokenizer has reported an error or the end of the input.
    pub closed spec fn stopped(&self) -> bool {
        self.tokenizer.finished() || self.tokenizer.failed()
    }

    /// How many of those tokens the tags read so far are made of.
    pub closed spec fn taken(&self) -> nat {
        if self.tokenizer.pending() is Some {
            (self.tokenizer.produced().len() - 1) as nat
        } else {
            self.tokenizer.produced().len()
        }
    }

    /// The tags left open in the stack `key`, innermost last.
    pub closed spec fn open_tags(&self, key: Option<Seq<char>>) -> Seq<BasicName> {
        match key {
            None => self.stacks@[0]@,
            Some(v) => if exists|i: int| 0 <= i < self.views@.len() && self.views@[i]@ == v {
                let i = choose|i: int| 0 <= i < self.views@.len() && self.views@[i]@ == v;
                self.stacks@[i + 1]@
            } else {
                Seq::empty()
            },
        }
    }

    pub closed spec fn wf(&self) -> bool {
        &&& self.stacks@.len() == self.views@.len() + 1
        &&& forall|i: int, j: int|
            0 <= i < j < self.views@.len() ==> self.views@[i]@ != self.views@[j]@
        &&& self.tokenizer.wf()
        &&& self.tokenizer.pending() matches Some(r) ==> r matches Ok(t) && {
            let c = self.tokenizer.consumed();
            let n = t.raw_view().len();
            &&& 0 < n <= c
            &&& t.raw_view() == self.stream().subrange(c - n, c as int)
            &&& t.span_view().start.is_after(self.stream().take(c - n))
            &&& t.span_view().end == self.tokenizer.position()
            &&& self.tokenizer.produced().len() > 0
            &&& t == self.tokenizer.produced().last()
        }
    }

    pub fn new(src: PeekReader) -> (r: BasicParser)
        requires
            src.wf(),
            src.index() == 0,
        ensures
            r.wf(),
            r.stream() == src.stream(),
            r.offset() == 0,
            r.tokens() == Seq::<RawToken>::empty(),
            r.taken() == 0,
            forall|k: Option<Seq<char>>| r.open_tags(k) == Seq::<BasicName>::empty(),
    {
        let r = BasicParser { tokenizer: RawTokenizer::new(src), views: Vec::new(), stacks: vec![Vec::new()] };
        assert forall|k: Option<Seq<char>>| r.open_tags(k) == Seq::<BasicName>::empty() by {
            if k is None {
                assert(r.stacks@[0]@ =~= Seq::<BasicName>::empty());
            }
        }
        r
    }

    /// Stack `i` is the one that `key` names.
    closed spec fn stack_of(&self, i: int, key: Option<Seq<char>>) -> bool {
        ||| (i == 0 && key is None)
        ||| (1 <= i < self.stacks@.len() && key == Some(self.views@[i - 1]@))
    }

    /// Changing stack `i` alone changes only the open tags of the key that names it.
    proof fn lemma_frame(a: &BasicParser, b: &BasicParser, i: int, key: Option<Seq<char>>)
        requires
            a.views@ == b.views@,
            a.stacks@.len() == b.stacks@.len() == a.views@.len() + 1,
            forall|x: int, y: int| 0 <= x < y < a.views@.len() ==> a.views@[x]@ != a.views@[y]@,
            forall|j: int| 0 <= j < a.stacks@.len() && j != i ==> a.stacks@[j] == b.stacks@[j],
            a.stack_of(i, key),
        ensures
            a.open_tags(key) == a.stacks@[i]@,
            b.open_tags(key) == b.stacks@[i]@,
            forall|k: Option<Seq<char>>| k != key ==> a.open_tags(k) == b.open_tags(k),
    {
        if key is Some {
            let w = key->0;
            assert(a.views@[i - 1]@ == w);
            let c = choose|x: int| 0 <= x < a.views@.len() && a.views@[x]@ == w;
            assert(c == i - 1) by {
                if c != i - 1 {
                    if c < i - 1 {
                        assert(a.views@[c]@ != a.views@[i - 1]@);
                    } else {
                        assert(a.views@[i - 1]@ != a.views@[c]@);
                    }
                }
            }
            assert(b.views@[i - 1]@ == w);
        }
        assert forall|k: Option<Seq<char>>| k != key implies a.open_tags(k) == b.open_tags(k) by {
            if k is Some {
                let w = k->0;
                if exists|x: int| 0 <= x < a.views@.len() && a.views@[x]@ == w {
                    let c = choose|x: int| 0 <= x < a.views@.len() && a.views@[x]@ == w;
                    assert(c + 1 != i);
                }
            } else {
                assert(i != 0);
            }
        }
    }

    /// Opens the tag `name` on stack `i`.
    fn push_open(&mut self, i: usize, name: BasicName, Ghost(key): Ghost<Option<Seq<char>>>)
        requires
            old(self).wf(),
            old(self).stack_of(i as int, key),
        ensures
            final(self).wf(),
            final(self).tokenizer == old(self).tokenizer,
            final(self).open_tags(key) == old(self).open_tags(key).push(name),
            forall|k: Option<Seq<char>>| k != key ==> final(self).open_tags(k) == old(self).open_tags(k),
    {
        let mut st = self.stacks.remove(i);
        st.push(name);
        self.stacks.insert(i, st);
        proof {
            assert forall|j: int| 0 <= j < self.stacks@.len() && j != i implies self.stacks@[j] == old(self).stacks@[j] by {}
            Self::lemma_frame(&*old(self), &*self, i as int, key);
        }
    }

    /// Closes the innermost tag of stack `i` and returns it; `None` where none is open.
    fn pop_open(&mut self, i: usize, Ghost(key): Ghost<Option<Seq<char>>>) -> (r: Option<BasicName>)
        requires
            old(self).wf(),
            old(self).stack_of(i as int, key),
        ensures
            final(self).wf(),
            final(self).tokenizer == old(self).tokenizer,
            old(self).open_tags(key).len() == 0 ==> r is None && final(self).open_tags(key) == old(self).open_tags(key),
            old(self).open_tags(key).len() > 0 ==> r == Some(old(self).open_tags(key).last())
                && final(self).open_tags(key) == old(self).open_tags(key).drop_last(),
            forall|k: Option<Seq<char>>| k != key ==> final(self).open_tags(k) == old(self).open_tags(k),
    {
        proof {
            Self::lemma_frame(&*self, &*self, i as int, key);
        }
        let mut st = self.stacks.remove(i);
        let r = st.pop();
        self.stacks.insert(i, st);
        proof {
            assert forall|j: int| 0 <= j < self.stacks@.len() && j != i implies self.stacks@[j] == old(self).stacks@[j] by {}
            Self::lemma_frame(&*old(self), &*self, i as int, key);
        }
        r
    }

    /// The index of the stack of open tags for the view `v`, made if there is none yet.
    fn view_stack(&mut self, v: &String) -> (r: usize)
        requires
            old(self).wf(),
        ensures
            final(self).wf(),
            final(self).tokenizer == old(self).tokenizer,
            1 <= r < final(self).stacks@.len(),
            final(self).views@[r - 1]@ == v@,
            forall|k: Option<Seq<char>>| final(self).open_tags(k) == old(self).open_tags(k),
            final(self).open_tags(Some(v@)) == final(self).stacks@[r as int]@,
    {
        let mut i: usize = 0;
        while i < self.views.len()
            invariant
                self.wf(),
                self == old(self),
                i <= self.views@.len(),
                forall|j: int| 0 <= j < i ==> self.views@[j]@ != v@,
            decreases self.views@.len() - i,
        {
            if self.views[i] == *v {
                proof {
                    assert forall|j: int| 0 <= j < self.views@.len() && self.views@[j]@ == v@ implies j == i by {
                        if j != i {
                            if j < i {
                            } else {
                                assert(self.views@[i as int]@ != self.views@[j]@);
                            }
                        }
                    }
                }
                return i + 1;
            }
            i = i + 1;
        }
        let ghost before = *self;
        self.views.push(v.clone());
        self.stacks.push(Vec::new());
        proof {
            let n = before.views@.len();
            assert(self.views@[n as int] == *v);
            assert forall|a: int, b: int| 0 <= a < b < self.views@.len() implies self.views@[a]@ != self.views@[b]@ by {
                if b == n {
                    assert(self.views@[a] == before.views@[a]);
                } else {
                    assert(self.views@[a] == before.views@[a]);
                    assert(self.views@[b] == before.views@[b]);
                }
            }
            assert forall|k: Option<Seq<char>>| self.open_tags(k) == before.open_tags(k) by {
                if k is Some {
                    let w = k->0;
                    if w == v@ {
                        assert(!(exists|j: int| 0 <= j < before.views@.len() && before.views@[j]@ == w));
                        assert(self.views@[n as int]@ == w);
                        assert forall|j: int| 0 <= j < self.views@.len() && self.views@[j]@ == w implies j == n by {
                            if j < n {
                                assert(self.views@[j] == before.views@[j]);
                            }
                        }
                        assert(self.stacks@[n as int + 1]@ =~= Seq::<BasicName>::empty());
                    } else {
                        assert forall|j: int| 0 <= j < self.views@.len() && self.views@[j]@ == w implies j < n && before.views@[j]@ == w by {
                            if j < n {
                                assert(self.views@[j] == before.views@[j]);
                            }
                        }
                        if exists|j: int| 0 <= j < before.views@.len() && before.views@[j]@ == w {
                            let j = choose|j: int| 0 <= j < before.views@.len() && before.views@[j]@ == w;
                            assert(self.views@[j] == before.views@[j]);
                            let c = choose|i: int| 0 <= i < self.views@.len() && self.views@[i]@ == w;
                            assert(c == j) by {
                                if c != j {
                                    assert(self.views@[c] == before.views@[c]);
                                    if c < j {
                                        assert(before.views@[c]@ != before.views@[j]@);
                                    } else {
                                        assert(before.views@[j]@ != before.views@[c]@);
                                    }
                                }
                            }
                            assert(self.stacks@[j + 1] == before.stacks@[j + 1]);
                        }
                    }
                } else {
                    assert(self.stacks@[0] == before.stacks@[0]);
                }
            }
            assert forall|j: int| 0 <= j < self.views@.len() && self.views@[j]@ == v@ implies j == n by {
                if j < n {
                    assert(self.views@[j] == before.views@[j]);
                }
            }
        }
        self.views.len()
    }


    /// The next token, and where it lies: it covers the input from the offset before
    /// the call to the offset after it.
    fn pull(&mut self) -> (r: Result<RawToken, ParserError>)
        requires
            old(self).wf(),
        ensures
            final(self).wf(),
            !(r matches Err(ParserError::MismatchedEnd(_, _))),
            final(self).views == old(self).views,
            final(self).stacks == old(self).stacks,
            final(self).stream() == old(self).stream(),
            final(self).tokenizer.pending() is None,
            old(self).offset() <= final(self).offset() <= final(self).stream().len(),
            final(self).taken() == final(self).tokens().len(),
            old(self).taken() <= final(self).tokens().len(),
            final(self).tokens().take(old(self).taken() as int) == old(self).tokens().take(
                old(self).taken() as int,
            ),
            r matches Ok(t) ==> final(self).taken() == old(self).taken() + 1 && final(self).tokens()[old(
                self,
            ).taken() as int] == t,
            r is Err ==> final(self).taken() == old(self).taken(),
            r is Err ==> final(self).stopped(),
            old(self).stopped() ==> final(self).stopped(),
            final(self).tokenizer.last_result() == Some(r),
            r matches Ok(t) ==> {
                &&& t.raw_view() == old(self).stream().subrange(
                    old(self).offset() as int,
                    final(self).offset() as int,
                )
                &&& t.span_view().start.is_after(old(self).stream().take(old(self).offset() as int))
                &&& t.span_view().end.is_after(old(self).stream().take(final(self).offset() as int))
                &&& old(self).offset() < final(self).offset()
            },
    {
        proof {
            self.tokenizer.lemma_position();
        }
        let r = self.tokenizer.next();
        proof {
            self.tokenizer.lemma_position();
            if r is Ok {
                let t = r->Ok_0;
                if old(self).tokenizer.pending() is None {
                    assert(t.raw_view().len() > 0);
                }
            }
        }
        r
    }

    /// Hands the last token pulled back to the tokenizer.
    fn push_back(&mut self, t: RawToken, Ghost(before): Ghost<nat>)
        requires
            old(self).wf(),
            old(self).tokenizer.pending() is None,
            before < old(self).offset(),
            t.raw_view() == old(self).stream().subrange(before as int, old(self).offset() as int),
            t.span_view().start.is_after(old(self).stream().take(before as int)),
            t.span_view().end.is_after(old(self).stream().take(old(self).offset() as int)),
            old(self).tokens().len() > 0,
            t == old(self).tokens().last(),
            old(self).tokenizer.last_result() == Some(Ok::<RawToken, ParserError>(t)),
        ensures
            final(self).wf(),
            final(self).views == old(self).views,
            final(self).stacks == old(self).stacks,
            final(self).stream() == old(self).stream(),
            final(self).offset() == before,
            final(self).tokens() == old(self).tokens(),
            final(self).taken() == old(self).taken() - 1,
            final(self).stopped() == old(self).stopped(),
            final(self).pending_token() == Some(Ok::<RawToken, ParserError>(t)),
    {
        proof {
            self.tokenizer.lemma_position();
        }
        let ghost c = self.tokenizer.consumed();
        assert(t.raw_view().len() == c - before);
        self.tokenizer.unnext(Ok(t));
        proof {
            self.tokenizer.lemma_position();
        }
    }

    /// A virtual tag named `name` whose one attribute, `val`, holds `val`.
    fn virtual_tag(name: &str, span: Span, raw: String, val: String) -> (r: Tag)
        ensures
            r.kind == TagType::Virtual,
            r.raw == raw,
            r.span == span,
            r.name.local@ == name@,
            r.name.special,
            r.name.view@.len() == 0,
            r.name.prefix@.len() == 0,
            r.attrs@.len() == 1,
            r.attrs@[0].name.local@ == seq!['v', 'a', 'l'],
            r.attrs@[0].name.special,
            r.attrs@[0].name.view@.len() == 0,
            r.attrs@[0].name.prefix@.len() == 0,
            r.attrs@[0].val == AttrValue::String(val),
    {
        proof {
            reveal_strlit("");
            reveal_strlit("val");
            assert("val"@ =~= seq!['v', 'a', 'l']);
        }
        Tag {
            name: BasicName::new("", true, "", name),
            kind: TagType::Virtual,
            raw: raw,
            span: span,
            attrs: vec![Attr { name: BasicName::new("", true, "", "val"), val: AttrValue::String(val) }],
        }
    }

    /// Reads the attributes of the tag that `first` opened, and what ends them: `;` or
    /// `|` (the tag has content), or `}` or `>` (it is complete). A token that neither
    /// continues nor ends the attributes is handed back.
    #[verifier::rlimit(100)]
    #[verifier::spinoff_prover]
    fn assemble(
        &mut self,
        first: RawToken,
        name: BasicName,
        pointy: bool,
        Ghost(start): Ghost<nat>,
        Ghost(i0): Ghost<nat>,
    ) -> (r: Result<Tag, ParserError>)
        requires
            old(self).wf(),
            old(self).tokenizer.pending() is None,
            start < old(self).offset(),
            first.raw_view() == old(self).stream().subrange(start as int, old(self).offset() as int),
            first.span_view().start.is_after(old(self).stream().take(start as int)),
            first.span_view().end.is_after(old(self).stream().take(old(self).offset() as int)),
            old(self).taken() == i0 as int + 1,
            old(self).taken() == old(self).tokens().len(),
            !pointy ==> (old(self).tokens()[i0 as int] matches RawToken::CurlyTagStart(_, _, nm) && nm == name),
            pointy ==> (old(self).tokens()[i0 as int] matches RawToken::PointyTagHead(_, _, nm) && nm == name),
        ensures
            r matches Ok(tag) ==> (!ended(final(self).tokens().subrange(i0 as int, final(self).taken() as int), pointy)
                ==> (final(self).pending_token() matches Some(Ok(t)) && !(t is Whitespace) && !(t is AttributeName))),
            r matches Err(e) ==> parser_error(*old(self), *final(self), e),
            r matches Err(e) ==> (e is UnexpectedToken ==> final(self).last_result() == Some(
                Err::<RawToken, ParserError>(e),
            )),
            !(r matches Err(ParserError::MismatchedEnd(_, _))),
            final(self).wf(),
            final(self).views == old(self).views,
            final(self).stacks == old(self).stacks,
            final(self).stream() == old(self).stream(),
            final(self).tokens().take(i0 as int + 1) == old(self).tokens().take(i0 as int + 1),
            final(self).tokens().len() >= i0 + 1,
            r matches Ok(tag) ==> {
                &&& tag.raw@ == final(self).stream().subrange(start as int, final(self).offset() as int)
                &&& tag.span.start.is_after(final(self).stream().take(start as int))
                &&& tag.span.end.is_after(final(self).stream().take(final(self).offset() as int))
                &&& start < final(self).offset()
                &&& i0 < final(self).taken() <= final(self).tokens().len()
                &&& tag_of_tokens(tag, final(self).tokens().subrange(i0 as int, final(self).taken() as int))
            },
    {
        let ghost s = self.stream();
        let ghost head = self.tokens()[i0 as int];
        let mut tag_raw = first.get_raw();
        let mut span = first.get_span();
        let mut attrs: Vec<Attr> = Vec::new();
        let start_kind = if pointy {
            TagType::PointyStart
        } else {
            TagType::CurlyStart
        };
        let full_kind = if pointy {
            TagType::PointyFull
        } else {
            TagType::CurlyFull
        };
        let kind = start_kind;
        proof {
            self.tokenizer.lemma_position();
            assert(self.tokens().subrange(i0 as int + 1, self.taken() as int) =~= Seq::<RawToken>::empty());
            assert(pairs_of(attrs@) =~= Seq::<(BasicName, AttrValue)>::empty());
        }
        loop
            invariant
                self.wf(),
                self.views == old(self).views,
                self.stacks == old(self).stacks,
                s == old(self).stream(),
                self.stream() == s,
                self.tokenizer.pending() is None,
                start < self.offset() <= s.len(),
                tag_raw@ == s.subrange(start as int, self.offset() as int),
                span.start.is_after(s.take(start as int)),
                span.end.is_after(s.take(self.offset() as int)),
                kind == start_kind,
                start_kind == if pointy {
                    TagType::PointyStart
                } else {
                    TagType::CurlyStart
                },
                full_kind == if pointy {
                    TagType::PointyFull
                } else {
                    TagType::CurlyFull
                },
                self.taken() == self.tokens().len(),
                i0 as int + 1 <= self.taken(),
                head == old(self).tokens()[i0 as int],
                self.tokens()[i0 as int] == head,
                !pointy ==> (head matches RawToken::CurlyTagStart(_, _, nm) && nm == name),
                pointy ==> (head matches RawToken::PointyTagHead(_, _, nm) && nm == name),
                self.tokens().take(i0 as int + 1) == old(self).tokens().take(i0 as int + 1),
                pairs_of(attrs@) == attr_pairs(self.tokens().subrange(i0 as int + 1, self.taken() as int)),
                attr_body(self.tokens(), i0 as int + 1, self.taken() as int),
                self.taken() > i0 as int + 1 ==> (self.tokens().last() is Whitespace
                    || self.tokens().last() is AttributeValue),
            decreases s.len() - self.offset(),
        {
            let ghost before = self.offset();
            let ghost toks0 = self.tokens();
            let ghost n0 = self.taken();
            let tok = self.pull();
            let t = match tok {
                Ok(t) => t,
                Err(e) => {
                    assert(self.tokens().take(i0 as int + 1) =~= old(self).tokens().take(i0 as int + 1)) by {
                        assert(self.tokens().take(i0 as int + 1) =~= self.tokens().take(n0 as int).take(i0 as int + 1));
                        assert(toks0.take(i0 as int + 1) =~= toks0.take(n0 as int).take(i0 as int + 1));
                    }
                    return Err(e);
                },
            };
            proof {
                assert(self.tokens().take(i0 as int + 1) =~= self.tokens().take(n0 as int).take(i0 as int + 1));
                assert(toks0.take(i0 as int + 1) =~= toks0.take(n0 as int).take(i0 as int + 1));
                lemma_take_index(self.tokens(), toks0, n0 as int, i0 as int);
                assert(self.tokens()[i0 as int] == self.tokens().take(i0 as int + 1)[i0 as int]);
                assert(self.tokens().subrange(i0 as int + 1, n0 as int) =~= toks0.subrange(i0 as int + 1, n0 as int)) by {
                    assert(self.tokens().take(n0 as int) =~= toks0.take(n0 as int));
                    assert forall|k: int| i0 as int + 1 <= k < n0 implies self.tokens()[k] == toks0[k] by {
                        assert(self.tokens()[k] == self.tokens().take(n0 as int)[k]);
                        assert(toks0[k] == toks0.take(n0 as int)[k]);
                    }
                }
                let sub1 = self.tokens().subrange(i0 as int + 1, self.taken() as int);
                assert(sub1.drop_last() =~= toks0.subrange(i0 as int + 1, n0 as int));
                assert(sub1.last() == t);
                assert(self.tokens().last() == t);
                lemma_body_prefix(toks0, self.tokens(), i0 as int + 1, n0 as int);
                assert(self.tokens()[n0 as int] == t);
            }
            assert(s.subrange(start as int, self.offset() as int) =~= s.subrange(start as int, before as int) + t.raw_view());
            let t_raw = t.get_raw();
            let one_char = t_raw.as_str().len() == 1;
            match t {
                RawToken::Whitespace(sp, _, _) => {
                    tag_raw.append(t_raw.as_str());
                    span.end = sp.end;
                    proof {
                        let sub1 = self.tokens().subrange(i0 as int + 1, self.taken() as int);
                        assert(sub1.drop_last() =~= toks0.subrange(i0 as int + 1, n0 as int));
                        assert(attr_pairs(sub1) == attr_pairs(sub1.drop_last()));
                        lemma_body_grow(self.tokens(), i0 as int + 1, n0 as int, 1);
                    }
                },
                RawToken::AttributeName(sp, _, attr_name) => {
                    tag_raw.append(t_raw.as_str());
                    span.end = sp.end;
                    let ghost mid = self.offset();
                    let ghost toks1 = self.tokens();
                    let ghost n1 = self.taken();
                    let vtok = self.pull();
                    let v = match vtok {
                        Ok(v) => v,
                        Err(e) => {
                            assert(self.tokens().take(i0 as int + 1) =~= old(self).tokens().take(i0 as int + 1)) by {
                                assert(self.tokens().take(i0 as int + 1) =~= self.tokens().take(n1 as int).take(i0 as int + 1));
                                assert(toks1.take(i0 as int + 1) =~= toks1.take(n1 as int).take(i0 as int + 1));
                            }
                            return Err(e);
                        },
                    };
                    assert(s.subrange(start as int, self.offset() as int) =~= s.subrange(start as int, mid as int) + v.raw_view());
                    let v_raw = v.get_raw();
                    match v {
                        RawToken::AttributeValue(sp2, _, val) => {
                            tag_raw.append(v_raw.as_str());
                            span.end = sp2.end;
                            let ghost a0 = attrs@;
                            attrs.push(Attr { name: attr_name, val: val });
                            proof {
                                assert(self.tokens().take(i0 as int + 1) =~= self.tokens().take(n1 as int).take(i0 as int + 1));
                                assert(toks1.take(i0 as int + 1) =~= toks1.take(n1 as int).take(i0 as int + 1));
                                assert(self.tokens().take(n1 as int) =~= toks1.take(n1 as int));
                                let sub2 = self.tokens().subrange(i0 as int + 1, self.taken() as int);
                                let sub0 = toks0.subrange(i0 as int + 1, n0 as int);
                                assert forall|k: int| 0 <= k < sub0.len() implies sub2[k] == sub0[k] by {
                                    assert(sub2[k] == self.tokens().take(n1 as int)[i0 as int + 1 + k]);
                                    assert(toks1.take(n1 as int)[i0 as int + 1 + k] == toks1[i0 as int + 1 + k]);
                                    assert(toks1[i0 as int + 1 + k] == toks1.subrange(i0 as int + 1, n1 as int)[k]);
                                }
                                assert(sub2.take(sub2.len() - 2) =~= sub0);
                                assert(self.tokens()[n1 as int - 1] == self.tokens().take(n1 as int)[n1 as int - 1]);
                                assert(toks1[n1 as int - 1] == toks1.take(n1 as int)[n1 as int - 1]);
                                assert(sub2[sub2.len() - 2] == toks1[n1 as int - 1]);
                                assert(toks1[n1 as int - 1] == toks1.last());
                                assert(sub2.last() is AttributeValue);
                                assert(pairs_of(attrs@) =~= pairs_of(a0).push((attr_name, val)));
                                assert(toks1.take(n0 as int) =~= toks1.take(n1 as int).take(n0 as int));
                                assert(self.tokens().take(n0 as int) =~= self.tokens().take(n1 as int).take(n0 as int));
                                lemma_body_prefix(toks1, self.tokens(), i0 as int + 1, n0 as int);
                                lemma_take_index(self.tokens(), toks1, n1 as int, n0 as int);
                                assert(self.tokens()[n0 as int + 1] == v);
                                lemma_body_grow(self.tokens(), i0 as int + 1, n0 as int, 2);
                                assert(self.tokens().last() == sub2.last());
                            }
                        },
                        _ => {
                            let vs = v.get_span();
                            proof {
                                assert(self.tokens().take(i0 as int + 1) =~= self.tokens().take(n1 as int).take(i0 as int + 1));
                                assert(toks1.take(i0 as int + 1) =~= toks1.take(n1 as int).take(i0 as int + 1));
                                lemma_take_index(self.tokens(), toks1, n1 as int, n1 as int - 1);
                                assert(self.tokens().last() == v);
                            }
                            return Err(ParserError::NotAttributeValue(vs, v_raw));
                        },
                    }
                },
                RawToken::TextMarker(sp, _) => {
                    tag_raw.append(t_raw.as_str());
                    span.end = sp.end;
                    let tag = Tag { name: name, kind: kind, raw: tag_raw, attrs: attrs, span: span };
                    proof {
                        let ts = self.tokens().subrange(i0 as int, self.taken() as int);
                        let sub1 = self.tokens().subrange(i0 as int + 1, self.taken() as int);
                        assert(ts.drop_first() =~= sub1);
                        assert(ts[0] == head);
                        assert(sub1.drop_last() =~= toks0.subrange(i0 as int + 1, n0 as int));
                        assert(sub1.last() == t);
                        assert(attr_pairs(sub1) == attr_pairs(sub1.drop_last()));
                        assert(pairs_of(tag.attrs@) == attr_pairs(ts.drop_first()));
                        if pointy {
                            assert(ts[0] matches RawToken::PointyTagHead(_, _, nm) && nm == tag.name);
                        } else {
                            assert(ts[0] matches RawToken::CurlyTagStart(_, _, nm) && nm == tag.name);
                        }
                        lemma_body_sub(self.tokens(), i0 as int, self.taken() as int, n0 as int);
                        assert(tag_of_tokens(tag, ts));
                    }
                    return Ok(tag);
                },
                RawToken::CurlyTagEnd(sp, _) if !pointy => {
                    tag_raw.append(t_raw.as_str());
                    span.end = sp.end;
                    let tag = Tag { name: name, kind: full_kind, raw: tag_raw, attrs: attrs, span: span };
                    proof {
                        let ts = self.tokens().subrange(i0 as int, self.taken() as int);
                        let sub1 = self.tokens().subrange(i0 as int + 1, self.taken() as int);
                        assert(ts.drop_first() =~= sub1);
                        assert(ts[0] == head);
                        assert(sub1.drop_last() =~= toks0.subrange(i0 as int + 1, n0 as int));
                        assert(sub1.last() == t);
                        assert(attr_pairs(sub1) == attr_pairs(sub1.drop_last()));
                        assert(pairs_of(tag.attrs@) == attr_pairs(ts.drop_first()));
                        if pointy {
                            assert(ts[0] matches RawToken::PointyTagHead(_, _, nm) && nm == tag.name);
                        } else {
                            assert(ts[0] matches RawToken::CurlyTagStart(_, _, nm) && nm == tag.name);
                        }
                        lemma_body_sub(self.tokens(), i0 as int, self.taken() as int, n0 as int);
                        assert(tag_of_tokens(tag, ts));
                        assert(ts.last() == self.tokens().last());
                    }
                    return Ok(tag);
                },
                RawToken::PointyTagTail(sp, _, _) if pointy && one_char => {
                    tag_raw.append(t_raw.as_str());
                    span.end = sp.end;
                    let tag = Tag { name: name, kind: full_kind, raw: tag_raw, attrs: attrs, span: span };
                    proof {
                        let ts = self.tokens().subrange(i0 as int, self.taken() as int);
                        let sub1 = self.tokens().subrange(i0 as int + 1, self.taken() as int);
                        assert(ts.drop_first() =~= sub1);
                        assert(ts[0] == head);
                        assert(sub1.drop_last() =~= toks0.subrange(i0 as int + 1, n0 as int));
                        assert(sub1.last() == t);
                        assert(attr_pairs(sub1) == attr_pairs(sub1.drop_last()));
                        assert(pairs_of(tag.attrs@) == attr_pairs(ts.drop_first()));
                        if pointy {
                            assert(ts[0] matches RawToken::PointyTagHead(_, _, nm) && nm == tag.name);
                        } else {
                            assert(ts[0] matches RawToken::CurlyTagStart(_, _, nm) && nm == tag.name);
                        }
                        lemma_body_sub(self.tokens(), i0 as int, self.taken() as int, n0 as int);
                        assert(tag_of_tokens(tag, ts));
                        assert(ts.last() == self.tokens().last());
                    }
                    return Ok(tag);
                },
                _ => {
                    self.push_back(t, Ghost(before));
                    let tag = Tag { name: name, kind: kind, raw: tag_raw, attrs: attrs, span: span };
                    proof {
                        assert(self.tokens().take(i0 as int + 1) =~= toks0.take(i0 as int + 1)) by {
                            assert(self.tokens().take(i0 as int + 1) =~= self.tokens().take(n0 as int).take(i0 as int + 1));
                            assert(toks0.take(i0 as int + 1) =~= toks0.take(n0 as int).take(i0 as int + 1));
                        }
                        let ts = self.tokens().subrange(i0 as int, self.taken() as int);
                        assert(ts.drop_first() =~= toks0.subrange(i0 as int + 1, n0 as int)) by {
                            assert forall|k: int| 0 <= k < ts.len() - 1 implies ts.drop_first()[k] == toks0.subrange(i0 as int + 1, n0 as int)[k] by {
                                assert(self.tokens()[i0 as int + 1 + k] == self.tokens().take(n0 as int)[i0 as int + 1 + k]);
                                assert(toks0[i0 as int + 1 + k] == toks0.take(n0 as int)[i0 as int + 1 + k]);
                            }
                        }
                        assert(ts[0] == self.tokens().take(i0 as int + 1)[i0 as int]);
                        if n0 > i0 as int + 1 {
                            assert(ts.last() == toks0.last()) by {
                                assert(ts.last() == self.tokens()[n0 as int - 1]);
                                assert(self.tokens()[n0 as int - 1] == self.tokens().take(n0 as int)[n0 as int - 1]);
                                assert(toks0.last() == toks0.take(n0 as int)[n0 as int - 1]);
                            }
                        }
                        lemma_body_sub(self.tokens(), i0 as int, n0 as int, n0 as int);
                    }
                    return Ok(tag);
                },
            }
        }
    }

    /// Reads the next tag, leaving the open tags as they are.
    fn read_tag(&mut self) -> (r: Result<Tag, ParserError>)
        requires
            old(self).wf(),
        ensures
            r matches Ok(tag) ==> ((tag.kind == TagType::CurlyStart || tag.kind == TagType::PointyStart)
                && !ended(final(self).tokens().subrange(old(self).taken() as int, final(self).taken() as int), tag.kind == TagType::PointyStart)
                ==> (final(self).pending_token() matches Some(Ok(t)) && !(t is Whitespace) && !(t is AttributeName))),
            r matches Err(e) ==> parser_error(*old(self), *final(self), e),
            final(self).wf(),
            !(r matches Err(ParserError::MismatchedEnd(_, _))),
            final(self).views == old(self).views,
            final(self).stacks == old(self).stacks,
            final(self).stream() == old(self).stream(),
            final(self).tokens().take(old(self).taken() as int) == old(self).tokens().take(
                old(self).taken() as int,
            ),
            r matches Ok(tag) ==> {
                &&& tag.raw@ == old(self).stream().subrange(old(self).offset() as int, final(self).offset() as int)
                &&& tag.span.start.is_after(old(self).stream().take(old(self).offset() as int))
                &&& tag.span.end.is_after(old(self).stream().take(final(self).offset() as int))
                &&& old(self).offset() < final(self).offset()
                &&& old(self).taken() < final(self).taken() <= final(self).tokens().len()
                &&& tag_of_tokens(tag, final(self).tokens().subrange(old(self).taken() as int, final(self).taken() as int))
            },
    {
        let ghost start = self.offset();
        let ghost i0 = self.taken();
        let tok = self.pull();
        let t = match tok {
            Ok(t) => t,
            Err(e) => return Err(e),
        };
        let span = t.get_span();
        let raw = t.get_raw();
        proof {
            reveal_strlit("text");
            reveal_strlit("math");
            reveal_strlit("code");
            assert("text"@ =~= seq!['t', 'e', 'x', 't']);
            assert("math"@ =~= seq!['m', 'a', 't', 'h']);
            assert("code"@ =~= seq!['c', 'o', 'd', 'e']);
            let ts = self.tokens().subrange(i0 as int, self.taken() as int);
            assert(ts.len() == 1 && ts[0] == t);
        }
        match t {
            RawToken::InlineText(_, _, val) => Ok(Self::virtual_tag("text", span, raw, val)),
            RawToken::Whitespace(_, _, val) => Ok(Self::virtual_tag("text", span, raw, val)),
            RawToken::InlineMathText(_, _, val) => Ok(Self::virtual_tag("math", span, raw, val)),
            RawToken::DisplayMathText(_, _, val) => Ok(Self::virtual_tag("math", span, raw, val)),
            RawToken::CodeBlock(_, _, _, content) => Ok(Self::virtual_tag("code", span, raw, content)),
            RawToken::CurlyTagStart(_, _, name) => {
                let first = RawToken::CurlyTagStart(span, raw, name.copy());
                let ghost mid = self.tokens();
                let r = self.assemble(first, name, false, Ghost(start), Ghost(i0));
                proof {
                    assert(self.tokens().take(i0 as int) =~= self.tokens().take(i0 as int + 1).take(i0 as int));
                    assert(mid.take(i0 as int) =~= mid.take(i0 as int + 1).take(i0 as int));
                }
                r
            },
            RawToken::PointyTagHead(_, _, name) => {
                let first = RawToken::PointyTagHead(span, raw, name.copy());
                let ghost mid = self.tokens();
                let r = self.assemble(first, name, true, Ghost(start), Ghost(i0));
                proof {
                    assert(self.tokens().take(i0 as int) =~= self.tokens().take(i0 as int + 1).take(i0 as int));
                    assert(mid.take(i0 as int) =~= mid.take(i0 as int + 1).take(i0 as int));
                }
                r
            },
            RawToken::CurlyTagEnd(_, _) => Ok(Tag { name: BasicName::new_empty(), kind: TagType::CurlyEnd, raw: raw, attrs: Vec::new(), span: span }),
            RawToken::PointyTagTail(_, _, name) => Ok(Tag { name: name, kind: TagType::PointyEnd, raw: raw, attrs: Vec::new(), span: span }),
            _ => {
                proof {
                    assert(self.tokens()[i0 as int] == t);
                }
                Err(ParserError::UnexpectedToken(span, raw))
            },
        }
    }

    /// The next tag. Text, whitespace, code and math come as virtual tags that hold
    /// their parsed value in the attribute `val`. The tag is made of the tokens read
    /// in the call, as `tag_of_tokens` says, and its raw text and span cover the
    /// input from the offset before the call to the offset after it. A start tag is
    /// left open on its stack; an end tag closes the innermost tag open there, and is
    /// an error where there is none or it bears another name.
    pub fn next(&mut self) -> (r: Result<Tag, ParserError>)
        requires
            old(self).wf(),
        ensures
            r matches Ok(tag) ==> ((tag.kind == TagType::CurlyStart || tag.kind == TagType::PointyStart)
                && !ended(final(self).tokens().subrange(old(self).taken() as int, final(self).taken() as int), tag.kind == TagType::PointyStart)
                ==> (final(self).pending_token() matches Some(Ok(t)) && !(t is Whitespace) && !(t is AttributeName))),
            r matches Err(e) ==> parser_error(*old(self), *final(self), e),
            final(self).wf(),
            final(self).offset() <= final(self).stream().len(),
            final(self).stream() == old(self).stream(),
            final(self).tokens().take(old(self).taken() as int) == old(self).tokens().take(
                old(self).taken() as int,
            ),
            r matches Ok(tag) ==> {
                &&& tag.raw@ == old(self).stream().subrange(old(self).offset() as int, final(self).offset() as int)
                &&& tag.span.start.is_after(old(self).stream().take(old(self).offset() as int))
                &&& tag.span.end.is_after(old(self).stream().take(final(self).offset() as int))
                &&& old(self).offset() < final(self).offset()
                &&& old(self).taken() < final(self).taken() <= final(self).tokens().len()
                &&& tag_of_tokens(tag, final(self).tokens().subrange(old(self).taken() as int, final(self).taken() as int))
                &&& nesting_step(*old(self), *final(self), tag)
            },
            r matches Err(ParserError::MismatchedEnd(_, _)) ==> exists|tag: Tag|
                tag_of_tokens(tag, final(self).tokens().subrange(old(self).taken() as int, final(self).taken() as int))
                && #[trigger] is_end(tag) && !end_closes(*old(self), tag),
    {
        let read = self.read_tag();
        proof {
            self.tokenizer.lemma_position();
        }
        let tag = match read {
            Ok(t) => t,
            Err(e) => return Err(e),
        };
        let ghost mid = *self;
        let ghost g = tag;
        let res = match tag.kind {
            TagType::CurlyStart => {
                self.push_open(0, tag.name.copy(), Ghost(None));
                Ok(tag)
            },
            TagType::PointyStart => {
                let i = self.view_stack(&tag.name.view);
                self.push_open(i, tag.name.copy(), Ghost(Some(tag.name.view@)));
                Ok(tag)
            },
            TagType::CurlyEnd => {
                match self.pop_open(0, Ghost(None)) {
                    Some(_) => Ok(tag),
                    None => {
                        assert(is_end(g) && !end_closes(*old(self), g));
                        Err(ParserError::MismatchedEnd(tag.span, tag.raw))
                    },
                }
            },
            TagType::PointyEnd => {
                let i = self.view_stack(&tag.name.view);
                match self.pop_open(i, Ghost(Some(tag.name.view@))) {
                    Some(top) => {
                        let ok = (tag.name.prefix.as_str().is_empty() && tag.name.local.as_str().is_empty())
                            || (tag.name.prefix == top.prefix && tag.name.local == top.local);
                        if ok {
                            Ok(tag)
                        } else {
                            assert(is_end(g) && !end_closes(*old(self), g));
                            Err(ParserError::MismatchedEnd(tag.span, tag.raw))
                        }
                    },
                    None => {
                        assert(is_end(g) && !end_closes(*old(self), g));
                        Err(ParserError::MismatchedEnd(tag.span, tag.raw))
                    },
                }
            },
            _ => Ok(tag),
        };
        proof {
            self.tokenizer.lemma_position();
        }
        res
    }
}

} // verus!
