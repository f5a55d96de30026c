use cptml::basic_parser::{Attr, BasicParser, Tag, TagType};
use cptml::errors::ParserError;
use cptml::peek_reader::PeekReader;
use cptml::pos::Span;
use cptml::token::{AttrValue, BasicName};

fn quick_input(input: &str) -> PeekReader {
    PeekReader::from_str(input)
}

#[test]
fn test_no_input() {
    let input = quick_input("");
    let mut parser = BasicParser::new(input);
    let ans = parser.next();
    assert_eq!(ans, Err(ParserError::EndOfInput));
}

#[test]
fn test_text_1() {
    let input = quick_input(" \t hi!  \n   a");
    let mut parser = BasicParser::new(input);
    let ans = parser.next();
    assert_eq!(
        ans,
        Ok(Tag {
            name: BasicName::new("", true, "", "text"),
            kind: TagType::Virtual,
            raw: " \t hi!  \n   a".to_string(),
            span: Span::new2(0, 1, 0, 13, 2, 4),
            attrs: vec![Attr {
                name: BasicName::new("", true, "", "val"),
                val: AttrValue::String(" \t hi!\na".to_string()),
            }]
        })
    );
    let ans = parser.next();
    assert_eq!(ans, Err(ParserError::EndOfInput));
}

#[test]
fn test_tag_1() {
    let input = quick_input("{icon \n }");
    let mut parser = BasicParser::new(input);
    let ans = parser.next();
    assert_eq!(
        ans,
        Ok(Tag {
            name: BasicName::new("", false, "", "icon"),
            kind: TagType::CurlyFull,
            span: Span::new2(0, 1, 0, 9, 2, 2),
            raw: "{icon \n }".to_string(),
            attrs: vec![]
        })
    );
    let ans = parser.next();
    assert_eq!(ans, Err(ParserError::EndOfInput));
}

#[test]
fn test_tag_2() {
    let input = quick_input("{icon !id=\"hi\\t\" \n n=3014\t}");
    let mut parser = BasicParser::new(input);
    let ans = parser.next();
    assert_eq!(
        ans,
        Ok(Tag {
            name: BasicName::new("", false, "", "icon"),
            kind: TagType::CurlyFull,
            span: Span::new2(0, 1, 0, 27, 2, 9),
            raw: "{icon !id=\"hi\\t\" \n n=3014\t}".to_string(),
            attrs: vec![
                Attr {
                    name: BasicName::new("", true, "", "!id"),
                    val: AttrValue::String("hi\t".to_string())
                },
                Attr {
                    name: BasicName::new("", false, "", "n"),
                    val: AttrValue::Integer(3014)
                }
            ]
        })
    );
    let ans = parser.next();
    assert_eq!(ans, Err(ParserError::EndOfInput));
}

#[test]
fn curly_tag_with_content_hands_back_text() {
    let mut parser = BasicParser::new(quick_input("{b; bold}"));
    let tag = parser.next().unwrap();
    assert_eq!(tag.kind, TagType::CurlyStart);
    assert_eq!(tag.raw, "{b;");
    let text = parser.next().unwrap();
    assert_eq!(text.kind, TagType::Virtual);
    assert_eq!(text.raw, " bold");
    let end = parser.next().unwrap();
    assert_eq!(end.kind, TagType::CurlyEnd);
    assert_eq!(end.raw, "}");
    assert_eq!(parser.next(), Err(ParserError::EndOfInput));
}

#[test]
fn attribute_name_without_value_is_an_error() {
    let mut parser = BasicParser::new(quick_input("{a b=;}"));
    assert!(matches!(parser.next(), Err(ParserError::IllegalChar2(_, ';', _))));
}

#[test]
fn pointy_tag_assembles_and_ends() {
    let mut parser = BasicParser::new(quick_input("<(v)ns:em k=1|x|(v)ns:em>"));
    let head = parser.next().unwrap();
    assert_eq!(head.kind, TagType::PointyStart);
    assert_eq!(head.name, BasicName::new("v", false, "ns", "em"));
    assert_eq!(head.raw, "<(v)ns:em k=1|");
    assert_eq!(head.attrs.len(), 1);
    assert!(head.kind.is_pointy());
    assert!(!head.kind.is_curly());
    let text = parser.next().unwrap();
    assert_eq!(text.raw, "x");
    let tail = parser.next().unwrap();
    assert_eq!(tail.kind, TagType::PointyEnd);
    assert_eq!(tail.raw, "|(v)ns:em>");
    assert_eq!(tail.name, BasicName::new("v", false, "ns", "em"));
}

#[test]
fn tag_attribute_lookup() {
    let tag = Tag {
        name: BasicName::new("", false, "", "img"),
        kind: TagType::CurlyFull,
        raw: String::new(),
        span: Span::new(),
        attrs: vec![
            Attr { name: BasicName::new_empty(), val: AttrValue::Integer(1) },
            Attr { name: BasicName::new("", false, "", "w"), val: AttrValue::Integer(2) },
            Attr { name: BasicName::new_empty(), val: AttrValue::Integer(3) },
        ],
    };
    assert_eq!(tag.get_pos_attr(1).map(|a| a.val.clone()), Some(AttrValue::Integer(1)));
    assert_eq!(tag.get_pos_attr(2).map(|a| a.val.clone()), Some(AttrValue::Integer(3)));
    assert_eq!(tag.get_pos_attr(3), None);
    assert_eq!(
        tag.get_named_attr(&BasicName::new("", false, "", "w")).map(|a| a.val.clone()),
        Some(AttrValue::Integer(2))
    );
    assert_eq!(tag.get_named_attr(&BasicName::new_empty()), None);
    assert!(!tag.attrs[0].is_named());
    assert!(tag.attrs[1].is_named());
}

#[test]
fn end_tags_must_match_open_tags() {
    let mut parser = BasicParser::new(quick_input("}"));
    assert_eq!(
        parser.next(),
        Err(ParserError::MismatchedEnd(Span::new2(0, 1, 0, 1, 1, 1), "}".to_string()))
    );
    let mut parser = BasicParser::new(quick_input("<a|x|b>"));
    assert_eq!(parser.next().unwrap().kind, TagType::PointyStart);
    assert_eq!(parser.next().unwrap().kind, TagType::Virtual);
    assert_eq!(
        parser.next(),
        Err(ParserError::MismatchedEnd(Span::new2(4, 1, 4, 7, 1, 7), "|b>".to_string()))
    );
    let mut parser = BasicParser::new(quick_input("<a|<(g)b|x|>|a>"));
    assert_eq!(parser.next().unwrap().kind, TagType::PointyStart);
    assert_eq!(parser.next().unwrap().kind, TagType::PointyStart);
    assert_eq!(parser.next().unwrap().kind, TagType::Virtual);
    assert_eq!(parser.next().unwrap().kind, TagType::PointyEnd);
    assert!(matches!(parser.next(), Err(ParserError::MismatchedEnd(..))));
    let mut parser = BasicParser::new(quick_input("<a|<(g)b|x|(g)>|a>"));
    for _ in 0..3 {
        parser.next().unwrap();
    }
    assert_eq!(parser.next().unwrap().kind, TagType::PointyEnd);
    assert_eq!(parser.next().unwrap().kind, TagType::PointyEnd);
    assert_eq!(parser.next(), Err(ParserError::EndOfInput));
}
