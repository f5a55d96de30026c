//! The values that the tokenizer produces.

use crate::pos::Span;
use crate::text::{copy_string, owned, string_of_char};
use vstd::prelude::*;

verus! {

/// A name of a tag or attribute: `(view)prefix:local`. `special` marks a local
/// part that begins with `!`.
#[derive(Debug, Clone, PartialEq, Eq)]
pub struct BasicName {
    pub view: String,
    pub special: bool,
    pub prefix: String,
    pub local: String,
}

impl BasicName {
    pub fn new(view: &str, special: bool, prefix: &str, local: &str) -> (r: BasicName)
        ensures
            r.view@ == view@,
            r.special == special,
            r.prefix@ == prefix@,
            r.local@ == local@,
    {
        BasicName { view: owned(view), special: special, prefix: owned(prefix), local: owned(local) }
    }

    /// The name with no parts, which positional attributes carry.
    pub fn new_empty() -> (r: BasicName)
        ensures
            r.view@.len() == 0,
            !r.special,
            r.prefix@.len() == 0,
            r.local@.len() == 0,
    {
        BasicName { view: String::new(), special: false, prefix: String::new(), local: String::new() }
    }

    /// True when the name has no part at all: no view, no prefix, no local part.
    pub open spec fn spec_is_empty(&self) -> bool {
        self.view@.len() == 0 && self.prefix@.len() == 0 && self.local@.len() == 0
    }

    pub fn is_empty(&self) -> (r: bool)
        ensures
            r == self.spec_is_empty(),
    {
        self.view.as_str().is_empty() && self.prefix.as_str().is_empty() && self.local.as_str().is_empty()
    }

    /// The same name, part by part.
    pub open spec fn same(&self, o: &BasicName) -> bool {
        &&& self.view@ == o.view@
        &&& self.special == o.special
        &&& self.prefix@ == o.prefix@
        &&& self.local@ == o.local@
    }

    pub fn equals(&self, o: &BasicName) -> (r: bool)
        ensures
            r == self.same(o),
    {
        self.special == o.special && self.view == o.view && self.prefix == o.prefix && self.local
            == o.local
    }

    pub fn copy(&self) -> (r: BasicName)
        ensures
            r == *self,
    {
        BasicName {
            view: copy_string(&self.view),
            special: self.special,
            prefix: copy_string(&self.prefix),
            local: copy_string(&self.local),
        }
    }
}

/// The value of an attribute. `Float(m, e)` stands for `m` times ten to the power `e`.
#[derive(Debug, Clone, PartialEq, Eq)]
pub enum AttrValue {
    Boolean(bool),
    Integer(i64),
    Float(i64, i32),
    String(String),
}

/// One token of the input. Each carries its span and the exact text it was read from.
#[derive(Debug, Clone, PartialEq, Eq)]
pub enum RawToken {
    /// `(span, raw, lang, content)` of a backtick-fenced block.
    CodeBlock(Span, String, String, String),
    /// `(span, raw, collapsed)`: a space, or nothing where the run held a line break.
    Whitespace(Span, String, String),
    /// The `;` or `|` that ends the attributes of a tag.
    TextMarker(Span, char),
    /// `(span, raw, parsed)` of plain text, escapes resolved and lines trimmed.
    InlineText(Span, String, String),
    InlineMathText(Span, String, String),
    DisplayMathText(Span, String, String),
    AttributeName(Span, String, BasicName),
    AttributeValue(Span, String, AttrValue),
    CurlyTagStart(Span, String, BasicName),
    CurlyTagEnd(Span, char),
    PointyTagHead(Span, String, BasicName),
    /// `|name>`, or the bare `>` that closes a pointy tag's head.
    PointyTagTail(Span, String, BasicName),
}

impl RawToken {
    /// The text that the token was read from.
    pub open spec fn raw_view(&self) -> Seq<char> {
        match self {
            RawToken::CodeBlock(_, raw, _, _) => raw@,
            RawToken::Whitespace(_, raw, _) => raw@,
            RawToken::TextMarker(_, c) => seq![*c],
            RawToken::InlineText(_, raw, _) => raw@,
            RawToken::InlineMathText(_, raw, _) => raw@,
            RawToken::DisplayMathText(_, raw, _) => raw@,
            RawToken::AttributeName(_, raw, _) => raw@,
            RawToken::AttributeValue(_, raw, _) => raw@,
            RawToken::CurlyTagStart(_, raw, _) => raw@,
            RawToken::CurlyTagEnd(_, c) => seq![*c],
            RawToken::PointyTagHead(_, raw, _) => raw@,
            RawToken::PointyTagTail(_, raw, _) => raw@,
        }
    }

    pub open spec fn span_view(&self) -> Span {
        match self {
            RawToken::CodeBlock(span, _, _, _) => *span,
            RawToken::Whitespace(span, _, _) => *span,
            RawToken::TextMarker(span, _) => *span,
            RawToken::InlineText(span, _, _) => *span,
            RawToken::InlineMathText(span, _, _) => *span,
            RawToken::DisplayMathText(span, _, _) => *span,
            RawToken::AttributeName(span, _, _) => *span,
            RawToken::AttributeValue(span, _, _) => *span,
            RawToken::CurlyTagStart(span, _, _) => *span,
            RawToken::CurlyTagEnd(span, _) => *span,
            RawToken::PointyTagHead(span, _, _) => *span,
            RawToken::PointyTagTail(span, _, _) => *span,
        }
    }

    pub fn get_raw(&self) -> (r: String)
        ensures
            r@ == self.raw_view(),
    {
        match self {
            RawToken::CodeBlock(_, raw, _, _) => copy_string(raw),
            RawToken::Whitespace(_, raw, _) => copy_string(raw),
            RawToken::TextMarker(_, c) => string_of_char(*c),
            RawToken::InlineText(_, raw, _) => copy_string(raw),
            RawToken::InlineMathText(_, raw, _) => copy_string(raw),
            RawToken::DisplayMathText(_, raw, _) => copy_string(raw),
            RawToken::AttributeName(_, raw, _) => copy_string(raw),
            RawToken::AttributeValue(_, raw, _) => copy_string(raw),
            RawToken::CurlyTagStart(_, raw, _) => copy_string(raw),
            RawToken::CurlyTagEnd(_, c) => string_of_char(*c),
            RawToken::PointyTagHead(_, raw, _) => copy_string(raw),
            RawToken::PointyTagTail(_, raw, _) => copy_string(raw),
        }
    }

    pub fn get_span(&self) -> (r: Span)
        ensures
            r == self.span_view(),
    {
        match self {
            RawToken::CodeBlock(span, _, _, _) => *span,
            RawToken::Whitespace(span, _, _) => *span,
            RawToken::TextMarker(span, _) => *span,
            RawToken::InlineText(span, _, _) => *span,
            RawToken::InlineMathText(span, _, _) => *span,
            RawToken::DisplayMathText(span, _, _) => *span,
            RawToken::AttributeName(span, _, _) => *span,
            RawToken::AttributeValue(span, _, _) => *span,
            RawToken::CurlyTagStart(span, _, _) => *span,
            RawToken::CurlyTagEnd(span, _) => *span,
            RawToken::PointyTagHead(span, _, _) => *span,
            RawToken::PointyTagTail(span, _, _) => *span,
        }
    }

    /// Replaces the span, keeping the variant and everything else.
    pub fn set_span(&mut self, new_span: Span)
        ensures
            final(self).span_view() == new_span,
            final(self).raw_view() == old(self).raw_view(),
            *final(self) == old(self).with_span(new_span),
    {
        match self {
            RawToken::CodeBlock(span, _, _, _) => *span = new_span,
            RawToken::Whitespace(span, _, _) => *span = new_span,
            RawToken::TextMarker(span, _) => *span = new_span,
            RawToken::InlineText(span, _, _) => *span = new_span,
            RawToken::InlineMathText(span, _, _) => *span = new_span,
            RawToken::DisplayMathText(span, _, _) => *span = new_span,
            RawToken::AttributeName(span, _, _) => *span = new_span,
            RawToken::AttributeValue(span, _, _) => *span = new_span,
            RawToken::CurlyTagStart(span, _, _) => *span = new_span,
            RawToken::CurlyTagEnd(span, _) => *span = new_span,
            RawToken::PointyTagHead(span, _, _) => *span = new_span,
            RawToken::PointyTagTail(span, _, _) => *span = new_span,
        }
    }

    /// The same token with span `s`.
    pub open spec fn with_span(self, s: Span) -> RawToken {
        match self {
            RawToken::CodeBlock(_, a, l, b) => RawToken::CodeBlock(s, a, l, b),
            RawToken::Whitespace(_, a, b) => RawToken::Whitespace(s, a, b),
            RawToken::TextMarker(_, c) => RawToken::TextMarker(s, c),
            RawToken::InlineText(_, a, b) => RawToken::InlineText(s, a, b),
            RawToken::InlineMathText(_, a, b) => RawToken::InlineMathText(s, a, b),
            RawToken::DisplayMathText(_, a, b) => RawToken::DisplayMathText(s, a, b),
            RawToken::AttributeName(_, a, b) => RawToken::AttributeName(s, a, b),
            RawToken::AttributeValue(_, a, b) => RawToken::AttributeValue(s, a, b),
            RawToken::CurlyTagStart(_, a, b) => RawToken::CurlyTagStart(s, a, b),
            RawToken::CurlyTagEnd(_, c) => RawToken::CurlyTagEnd(s, c),
            RawToken::PointyTagHead(_, a, b) => RawToken::PointyTagHead(s, a, b),
            RawToken::PointyTagTail(_, a, b) => RawToken::PointyTagTail(s, a, b),
        }
    }
}

} // verus!
