use cptml::errors::ParserError;
use cptml::peek_reader::PeekReader;
use cptml::pos::{Position, Span};
use cptml::raw_tokenizer::{
    parse_attr_name, parse_inline_text, parse_next_token, parse_numeric_value, parse_string_value,
    parse_tag, parse_whitespace, State,
};
use cptml::token::{AttrValue, BasicName, RawToken};

fn quick_input(input: &'static str) -> PeekReader {
    PeekReader::from_str(input)
}

#[test]
fn parse_inline_text_1a() {
    let mut input = quick_input("");
    let mut state = State::new();
    let ans = parse_inline_text(&mut input, &mut state);
    assert_eq!(
        ans,
        Ok(RawToken::InlineText(
            Span::new(),
            "".to_string(),
            "".to_string()
        ))
    );
}

#[test]
fn parse_inline_text_1b() {
    let mut input = quick_input("     \n");
    let mut state = State::new();
    let ans = parse_inline_text(&mut input, &mut state);
    assert_eq!(
        ans,
        Ok(RawToken::InlineText(
            Span::new(),
            "     \n".to_string(),
            "".to_string()
        ))
    );
}

#[test]
fn parse_inline_text_2a() {
    let mut input = quick_input(" a bc  ");
    let mut state = State::new();
    let ans = parse_inline_text(&mut input, &mut state);
    assert_eq!(
        ans,
        Ok(RawToken::InlineText(
            Span::new(),
            " a bc  ".to_string(),
            " a bc  ".to_string()
        ))
    );
}

#[test]
fn parse_inline_text_2b() {
    let mut input = quick_input("\n a bc  \n");
    let mut state = State::new();
    let ans = parse_inline_text(&mut input, &mut state);
    assert_eq!(
        ans,
        Ok(RawToken::InlineText(
            Span::new(),
            "\n a bc  \n".to_string(),
            "a bc\n".to_string()
        ))
    );
}

#[test]
fn parse_inline_text_3() {
    let mut input = quick_input("\n \ta bc  \n\t z ");
    let mut state = State::new();
    let ans = parse_inline_text(&mut input, &mut state);
    assert_eq!(
        ans,
        Ok(RawToken::InlineText(
            Span::new(),
            "\n \ta bc  \n\t z ".to_string(),
            "a bc\nz ".to_string()
        ))
    );
}

#[test]
fn parse_inline_text_4() {
    let mut input = quick_input("\n   \\t   \\n\\u1F4DA;\\t");
    let mut state = State::new();
    let ans = parse_inline_text(&mut input, &mut state);
    assert_eq!(
        ans,
        Ok(RawToken::InlineText(
            Span::new(),
            "\n   \\t   \\n\\u1F4DA;\\t".to_string(),
            "\t   \n📚\t".to_string()
        ))
    );
}

#[test]
fn parse_inline_text_5() {
    let mut input = quick_input("\n a { < | } > bc  \n");
    let mut state = State::new();
    let ans = parse_inline_text(&mut input, &mut state);
    assert_eq!(
        ans,
        Ok(RawToken::InlineText(
            Span::new(),
            "\n a { < | } > bc  \n".to_string(),
            "a { < | } > bc\n".to_string()
        ))
    );
}

#[test]
fn parse_inline_text_6() {
    let mut input = quick_input("\n a {bc  \n");
    let mut state = State::new();
    let ans = parse_inline_text(&mut input, &mut state);
    assert_eq!(
        ans,
        Ok(RawToken::InlineText(
            Span::new(),
            "\n a ".to_string(),
            "a ".to_string()
        ))
    );
}

#[test]
fn parse_tag_1() {
    let mut input = quick_input("{icon");
    let mut state = State::new();
    let ans = parse_tag(&mut input, &mut state);
    assert_eq!(
        ans,
        Ok(RawToken::CurlyTagStart(
            Span::new(),
            "{icon".to_string(),
            BasicName {
                view: "".to_string(),
                special: false,
                prefix: "".to_string(),
                local: "icon".to_string()
            }
        ))
    );
}

#[test]
fn parse_tag_2() {
    let mut input = quick_input("{icon}");
    let mut state = State::new();
    let ans = parse_tag(&mut input, &mut state);
    assert_eq!(
        ans,
        Ok(RawToken::CurlyTagStart(
            Span::new(),
            "{icon".to_string(),
            BasicName {
                view: "".to_string(),
                special: false,
                prefix: "".to_string(),
                local: "icon".to_string()
            }
        ))
    );
}

#[test]
fn parse_tag_3() {
    let mut input = quick_input("{!icon;");
    let mut state = State::new();
    let ans = parse_tag(&mut input, &mut state);
    assert_eq!(
        ans,
        Ok(RawToken::CurlyTagStart(
            Span::new(),
            "{!icon".to_string(),
            BasicName {
                view: "".to_string(),
                special: true,
                prefix: "".to_string(),
                local: "!icon".to_string()
            }
        ))
    );
}

#[test]
fn parse_tag_4() {
    let mut input = quick_input("<ns:icon|");
    let mut state = State::new();
    let ans = parse_tag(&mut input, &mut state);
    assert_eq!(
        ans,
        Ok(RawToken::PointyTagHead(
            Span::new(),
            "<ns:icon".to_string(),
            BasicName {
                view: "".to_string(),
                special: false,
                prefix: "ns".to_string(),
                local: "icon".to_string()
            }
        ))
    );
    let ans = parse_tag(&mut input, &mut state);
    assert_eq!(
        ans,
        Ok(RawToken::TextMarker(
            Span::new(),
            '|'
        ))
    );
}

#[test]
fn parse_tag_5() {
    let mut input = quick_input("<!ns:icon|");
    let mut state = State::new();
    let ans = parse_tag(&mut input, &mut state);
    assert_eq!(
        ans,
        Ok(RawToken::PointyTagHead(
            Span::new(),
            "<!ns:icon".to_string(),
            BasicName {
                view: "".to_string(),
                special: true,
                prefix: "!ns".to_string(),
                local: "icon".to_string()
            }
        ))
    );
}

#[test]
fn parse_tag_6() {
    let mut input = quick_input("<(t)tei:line|");
    let mut state = State::new();
    let ans = parse_tag(&mut input, &mut state);
    assert_eq!(
        ans,
        Ok(RawToken::PointyTagHead(
            Span::new(),
            "<(t)tei:line".to_string(),
            BasicName {
                view: "t".to_string(),
                special: false,
                prefix: "tei".to_string(),
                local: "line".to_string()
            }
        ))
    );
}

#[test]
fn parse_tag_7() {
    let mut input = quick_input("<(t)tei:line:a|");
    let mut state = State::new();
    let ans = parse_tag(&mut input, &mut state);
    assert_eq!(
        ans,
        Err(ParserError::IllegalCharMsg(
            Position::new2(12, 1, 12),
            ':',
            "valid id char".to_string()
        ))
    );
}

#[test]
fn parse_tag_8() {
    let mut input = quick_input("<(ttei:line|");
    let mut state = State::new();
    let ans = parse_tag(&mut input, &mut state);
    assert_eq!(
        ans,
        Err(ParserError::MissingTerminator(
            Position::new2(11, 1, 11),
            ')'
        ))
    );
}

#[test]
fn parse_tag_9() {
    let mut input = quick_input("<ns:>");
    let mut state = State::new();
    let ans = parse_tag(&mut input, &mut state);
    assert_eq!(
        ans,
        Err(ParserError::MissingLocalName(Position::new2(0, 1, 0),))
    );
}

#[test]
fn parse_tag_10() {
    let mut input = quick_input("|(t)tei:line>");
    let mut state = State::new();
    let ans = parse_tag(&mut input, &mut state);
    assert_eq!(
        ans,
        Ok(RawToken::PointyTagTail(
            Span::new(),
            "|(t)tei:line>".to_string(),
            BasicName {
                view: "t".to_string(),
                special: false,
                prefix: "tei".to_string(),
                local: "line".to_string()
            }
        ))
    );
}

#[test]
fn parse_tag_11() {
    let mut input = quick_input("|(t)>");
    let mut state = State::new();
    let ans = parse_tag(&mut input, &mut state);
    assert_eq!(
        ans,
        Ok(RawToken::PointyTagTail(
            Span::new(),
            "|(t)>".to_string(),
            BasicName {
                view: "t".to_string(),
                special: false,
                prefix: "".to_string(),
                local: "".to_string()
            }
        ))
    );
}

#[test]
fn parse_tag_12() {
    let mut input = quick_input("|>");
    let mut state = State::new();
    let ans = parse_tag(&mut input, &mut state);
    assert_eq!(
        ans,
        Ok(RawToken::PointyTagTail(
            Span::new(),
            "|>".to_string(),
            BasicName {
                view: "".to_string(),
                special: false,
                prefix: "".to_string(),
                local: "".to_string()
            }
        ))
    );
}

#[test]
fn parse_tag_13() {
    let mut input = quick_input("}");
    let mut state = State::new();
    let ans = parse_tag(&mut input, &mut state);
    assert_eq!(ans, Ok(RawToken::CurlyTagEnd(Span::new(), '}')));
}

#[test]
fn parse_attr_name_1() {
    let mut input = quick_input("attr=");
    let mut state = State::new();
    let ans = parse_attr_name(&mut input, &mut state);
    assert_eq!(
        ans,
        Ok(RawToken::AttributeName(
            Span::new(),
            "attr=".to_string(),
            BasicName {
                view: "".to_string(),
                special: false,
                prefix: "".to_string(),
                local: "attr".to_string()
            }
        ))
    );
}

#[test]
fn parse_attr_name_2() {
    let mut input = quick_input("!id=");
    let mut state = State::new();
    let ans = parse_attr_name(&mut input, &mut state);
    assert_eq!(
        ans,
        Ok(RawToken::AttributeName(
            Span::new(),
            "!id=".to_string(),
            BasicName {
                view: "".to_string(),
                special: true,
                prefix: "".to_string(),
                local: "!id".to_string()
            }
        ))
    );
}

#[test]
fn parse_attr_name_3() {
    let mut input = quick_input("ns1:attr_val=");
    let mut state = State::new();
    let ans = parse_attr_name(&mut input, &mut state);
    assert_eq!(
        ans,
        Ok(RawToken::AttributeName(
            Span::new(),
            "ns1:attr_val=".to_string(),
            BasicName {
                view: "".to_string(),
                special: false,
                prefix: "ns1".to_string(),
                local: "attr_val".to_string()
            }
        ))
    );
}

#[test]
fn parse_attr_name_4() {
    let mut input = quick_input("ns1:1attr_val=");
    let mut state = State::new();
    let ans = parse_attr_name(&mut input, &mut state);
    assert_eq!(
        ans,
        Err(ParserError::IllegalCharMsg(
            Position::new2(4, 1, 4),
            '1',
            "valid id char".to_string()
        ))
    );
}

#[test]
fn parse_string_value_1() {
    let mut input = quick_input("\"\"");
    let mut state = State::new();
    let ans = parse_string_value(&mut input, &mut state);
    assert_eq!(
        ans,
        Ok(RawToken::AttributeValue(
            Span::new(),
            "\"\"".to_string(),
            AttrValue::String("".to_string())
        ))
    );
}

#[test]
fn parse_string_value_2() {
    let mut input = quick_input("\"abc\"");
    let mut state = State::new();
    let ans = parse_string_value(&mut input, &mut state);
    assert_eq!(
        ans,
        Ok(RawToken::AttributeValue(
            Span::new(),
            "\"abc\"".to_string(),
            AttrValue::String("abc".to_string())
        ))
    );
}

#[test]
fn parse_string_value_3() {
    let mut input = quick_input("\"\\\"\"");
    let mut state = State::new();
    let ans = parse_string_value(&mut input, &mut state);
    assert_eq!(
        ans,
        Ok(RawToken::AttributeValue(
            Span::new(),
            "\"\\\"\"".to_string(),
            AttrValue::String("\"".to_string())
        ))
    );
}

#[test]
fn parse_string_value_4() {
    let mut input = quick_input("\"\\u222B;\"");
    let mut state = State::new();
    let ans = parse_string_value(&mut input, &mut state);
    assert_eq!(
        ans,
        Ok(RawToken::AttributeValue(
            Span::new(),
            "\"\\u222B;\"".to_string(),
            AttrValue::String("∫".to_string())
        ))
    );
}

#[test]
fn parse_numeric_value_1() {
    let mut input = quick_input("1_000");
    let mut state = State::new();
    let ans = parse_numeric_value(&mut input, &mut state);
    assert_eq!(
        ans,
        Ok(RawToken::AttributeValue(
            Span::new(),
            "1_000".to_string(),
            AttrValue::Integer(1000)
        ))
    );
}

#[test]
fn parse_numeric_value_2() {
    let mut input = quick_input("1_000.3__4");
    let mut state = State::new();
    let ans = parse_numeric_value(&mut input, &mut state);
    assert_eq!(
        ans,
        Ok(RawToken::AttributeValue(
            Span::new(),
            "1_000.3__4".to_string(),
            AttrValue::Float(100034, -2)
        ))
    );
}

#[test]
fn parse_numeric_value_3() {
    let mut input = quick_input("_");
    let mut state = State::new();
    let ans = parse_numeric_value(&mut input, &mut state);
    assert_eq!(
        ans,
        Err(ParserError::IllegalNumber(
            Span::new2(0, 1, 0, 1, 1, 1),
            "_".to_string()
        ))
    );
}

#[test]
fn parse_whitespace_1() {
    let mut input = quick_input("   ");
    let mut state = State::new();
    let ans = parse_whitespace(&mut input, &mut state);
    assert_eq!(
        ans,
        Ok(RawToken::Whitespace(
            Span::new(),
            "   ".to_string(),
            " ".to_string()
        ))
    );
}

#[test]
fn parse_whitespace_2() {
    let mut input = quick_input(" \n  ");
    let mut state = State::new();
    let ans = parse_whitespace(&mut input, &mut state);
    assert_eq!(
        ans,
        Ok(RawToken::Whitespace(
            Span::new(),
            " \n  ".to_string(),
            "".to_string()
        ))
    );
}

#[test]
fn parse_next_token_1() {
    let mut input = quick_input("{emph;\nhi }");
    let mut state = State::new();
    let ans = parse_next_token(&mut input, &mut state);
    assert_eq!(
        ans,
        Ok(RawToken::CurlyTagStart(
            Span::new2(0, 1, 0, 5, 1, 5),
            "{emph".to_string(),
            BasicName {
                view: "".to_string(),
                special: false,
                prefix: "".to_string(),
                local: "emph".to_string()
            }
        ))
    );
    let ans = parse_next_token(&mut input, &mut state);
    assert_eq!(
        ans,
        Ok(RawToken::TextMarker(Span::new2(5, 1, 5, 6, 1, 6), ';'))
    );
    let ans = parse_next_token(&mut input, &mut state);
    assert_eq!(
        ans,
        Ok(RawToken::InlineText(
            Span::new2(6, 1, 6, 10, 2, 3),
            "\nhi ".to_string(),
            "hi ".to_string()
        ))
    );
    let ans = parse_next_token(&mut input, &mut state);
    assert_eq!(
        ans,
        Ok(RawToken::CurlyTagEnd(Span::new2(10, 2, 3, 11, 2, 4), '}'))
    );
    let ans = parse_next_token(&mut input, &mut state);
    assert_eq!(ans, Err(ParserError::EndOfInput));
}

#[test]
fn parse_next_token_2() {
    let mut input = quick_input("{emph \t\n!id=\"elem\" num=3._14;\nhi }");
    let mut state = State::new();
    let ans = parse_next_token(&mut input, &mut state);
    assert_eq!(
        ans,
        Ok(RawToken::CurlyTagStart(
            Span::new2(0, 1, 0, 5, 1, 5),
            "{emph".to_string(),
            BasicName {
                view: "".to_string(),
                special: false,
                prefix: "".to_string(),
                local: "emph".to_string()
            }
        ))
    );
    let ans = parse_next_token(&mut input, &mut state);
    assert_eq!(
        ans,
        Ok(RawToken::Whitespace(
            Span::new2(5, 1, 5, 8, 2, 0),
            " \t\n".to_string(),
            "".to_string()
        ))
    );
    let ans = parse_next_token(&mut input, &mut state);
    assert_eq!(
        ans,
        Ok(RawToken::AttributeName(
            Span::new2(8, 2, 0, 12, 2, 4),
            "!id=".to_string(),
            BasicName {
                view: "".to_string(),
                special: true,
                prefix: "".to_string(),
                local: "!id".to_string()
            }
        ))
    );
    let ans = parse_next_token(&mut input, &mut state);
    assert_eq!(
        ans,
        Ok(RawToken::AttributeValue(
            Span::new2(12, 2, 4, 18, 2, 10),
            "\"elem\"".to_string(),
            AttrValue::String("elem".to_string()),
        ))
    );
    let ans = parse_next_token(&mut input, &mut state);
    assert_eq!(
        ans,
        Ok(RawToken::Whitespace(
            Span::new2(18, 2, 10, 19, 2, 11),
            " ".to_string(),
            " ".to_string()
        ))
    );
    let ans = parse_next_token(&mut input, &mut state);
    assert_eq!(
        ans,
        Ok(RawToken::AttributeName(
            Span::new2(19, 2, 11, 23, 2, 15),
            "num=".to_string(),
            BasicName {
                view: "".to_string(),
                special: false,
                prefix: "".to_string(),
                local: "num".to_string()
            }
        ))
    );
    let ans = parse_next_token(&mut input, &mut state);
    assert_eq!(
        ans,
        Ok(RawToken::AttributeValue(
            Span::new2(23, 2, 15, 28, 2, 20),
            "3._14".to_string(),
            AttrValue::Float(314, -2)
        ))
    );

    let ans = parse_next_token(&mut input, &mut state);
    assert_eq!(
        ans,
        Ok(RawToken::TextMarker(Span::new2(28, 2, 20, 29, 2, 21), ';'))
    );
    let ans = parse_next_token(&mut input, &mut state);
    assert_eq!(
        ans,
        Ok(RawToken::InlineText(
            Span::new2(29, 2, 21, 33, 3, 3),
            "\nhi ".to_string(),
            "hi ".to_string()
        ))
    );
    let ans = parse_next_token(&mut input, &mut state);
    assert_eq!(
        ans,
        Ok(RawToken::CurlyTagEnd(Span::new2(33, 3, 3, 34, 3, 4), '}'))
    );
    let ans = parse_next_token(&mut input, &mut state);
    assert_eq!(ans, Err(ParserError::EndOfInput));
}


#[test]
fn parse_next_token_3() {
    let mut input = quick_input("<emph \t\n!id=\"elem\" num=3._14|\nhi");
    let mut state = State::new();
    let ans = parse_next_token(&mut input, &mut state);
    assert_eq!(
        ans,
        Ok(RawToken::PointyTagHead(
            Span::new2(0, 1, 0, 5, 1, 5),
            "<emph".to_string(),
            BasicName {
                view: "".to_string(),
                special: false,
                prefix: "".to_string(),
                local: "emph".to_string()
            }
        ))
    );
    let ans = parse_next_token(&mut input, &mut state);
    assert_eq!(
        ans,
        Ok(RawToken::Whitespace(
            Span::new2(5, 1, 5, 8, 2, 0),
            " \t\n".to_string(),
            "".to_string()
        ))
    );
    let ans = parse_next_token(&mut input, &mut state);
    assert_eq!(
        ans,
        Ok(RawToken::AttributeName(
            Span::new2(8, 2, 0, 12, 2, 4),
            "!id=".to_string(),
            BasicName {
                view: "".to_string(),
                special: true,
                prefix: "".to_string(),
                local: "!id".to_string()
            }
        ))
    );
    let ans = parse_next_token(&mut input, &mut state);
    assert_eq!(
        ans,
        Ok(RawToken::AttributeValue(
            Span::new2(12, 2, 4, 18, 2, 10),
            "\"elem\"".to_string(),
            AttrValue::String("elem".to_string()),
        ))
    );
    let ans = parse_next_token(&mut input, &mut state);
    assert_eq!(
        ans,
        Ok(RawToken::Whitespace(
            Span::new2(18, 2, 10, 19, 2, 11),
            " ".to_string(),
            " ".to_string()
        ))
    );
    let ans = parse_next_token(&mut input, &mut state);
    assert_eq!(
        ans,
        Ok(RawToken::AttributeName(
            Span::new2(19, 2, 11, 23, 2, 15),
            "num=".to_string(),
            BasicName {
                view: "".to_string(),
                special: false,
                prefix: "".to_string(),
                local: "num".to_string()
            }
        ))
    );
    let ans = parse_next_token(&mut input, &mut state);
    assert_eq!(
        ans,
        Ok(RawToken::AttributeValue(
            Span::new2(23, 2, 15, 28, 2, 20),
            "3._14".to_string(),
            AttrValue::Float(314, -2)
        ))
    );
    let ans = parse_next_token(&mut input, &mut state);
    assert_eq!(
        ans,
        Ok(RawToken::TextMarker(Span::new2(28, 2, 20, 29, 2, 21), '|'))
    );
    let ans = parse_next_token(&mut input, &mut state);
    assert_eq!(
        ans,
        Ok(RawToken::InlineText(
            Span::new2(29, 2, 21, 32, 3, 2),
            "\nhi".to_string(),
            "hi".to_string()
        ))
    );
    let ans = parse_next_token(&mut input, &mut state);
    assert_eq!(ans, Err(ParserError::EndOfInput));
}
