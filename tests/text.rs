use cptml::peek_reader::PeekReader;
use cptml::pos::Span;
use cptml::raw_tokenizer::{parse_inline_text, RawTokenizer, State};
use cptml::token::RawToken;

fn text_of(input: &str) -> (String, String) {
    let mut src = PeekReader::from_str(input);
    let mut state = State::new();
    match parse_inline_text(&mut src, &mut state) {
        Ok(RawToken::InlineText(_, raw, parsed)) => (raw, parsed),
        other => panic!("not text: {:?}", other),
    }
}

fn first_token(input: &str) -> RawToken {
    let mut t = RawTokenizer::new(PeekReader::from_str(input));
    t.next().unwrap()
}

#[test]
fn token_parser_test_test_parse_text_slash_1() {
    let input_str = "\\t";
    let (raw, parsed) = text_of(input_str);
    assert_eq!(raw, input_str);
    assert_eq!(parsed, "\t");
}

#[test]
fn token_parser_test_test_parse_text_slash_2() {
    let input_str = "\\{";
    let (raw, parsed) = text_of(input_str);
    assert_eq!(raw, input_str);
    assert_eq!(parsed, "{");
}

#[test]
fn token_parser_test_test_parse_text_unicode_1() {
    let input_str = "\\u1F4DA;";
    let (raw, parsed) = text_of(input_str);
    assert_eq!(raw, input_str);
    assert_eq!(parsed, "📚");
}

#[test]
fn token_parser_test_test_parse_text_unicode_2() {
    let input_str = "\\u10437;";
    let (raw, parsed) = text_of(input_str);
    assert_eq!(raw, input_str);
    assert_eq!(parsed, "𐐷");
}

#[test]
fn test_parse_text_normal_1() {
    let input_str = " hi { < | > } \n\t b/d*a {icon";
    let ans = first_token(input_str);
    assert_eq!(
        ans,
        RawToken::InlineText(
            Span::new2(0, 1, 0, 23, 2, 8),
            input_str[..23].to_string(),
            " hi { < | > }\nb/d*a ".to_string()
        )
    );
}

#[test]
fn token_parser_text_test_parse_text_slash_1() {
    let input_str = "\\t";
    let (raw, parsed) = text_of(input_str);
    assert_eq!(raw, input_str);
    assert_eq!(parsed, "\t");
}

#[test]
fn token_parser_text_test_parse_text_slash_2() {
    let input_str = "\\{";
    let (raw, parsed) = text_of(input_str);
    assert_eq!(raw, input_str);
    assert_eq!(parsed, "{");
}

#[test]
fn token_parser_text_test_parse_text_unicode_1() {
    let input_str = "\\u1F4DA;";
    let (raw, parsed) = text_of(input_str);
    assert_eq!(raw, input_str);
    assert_eq!(parsed, "📚");
}

#[test]
fn token_parser_text_test_parse_text_unicode_2() {
    let input_str = "\\u10437;";
    let (raw, parsed) = text_of(input_str);
    assert_eq!(raw, input_str);
    assert_eq!(parsed, "𐐷");
}

#[test]
fn test_parse_text_1() {
    let input_str = " hi { < | > } \n\t b/d*a {icon";
    let ans = first_token(input_str);
    assert_eq!(ans.get_raw(), input_str[..23]);
    assert_eq!(ans.get_span(), Span::new2(0, 1, 0, 23, 2, 8));
    match ans {
        RawToken::InlineText(_, _, parsed) => assert_eq!(parsed, " hi { < | > }\nb/d*a "),
        other => panic!("not text: {:?}", other),
    }
}

#[test]
fn test_parse_text_3() {
    let input_str = "\n     \\s dasds \\t\t\t\n ";
    let ans = first_token(input_str);
    assert_eq!(ans.get_raw(), input_str);
    assert_eq!(ans.get_span(), Span::new2(0, 1, 0, 21, 3, 1));
    match ans {
        RawToken::InlineText(_, _, parsed) => assert_eq!(parsed, "  dasds \t\n"),
        other => panic!("not text: {:?}", other),
    }
}

#[test]
fn test_parse_text_4() {
    let input_str = "\n     \\s \n \\s dasds \\t\t\n";
    let ans = first_token(input_str);
    assert_eq!(ans.get_raw(), input_str);
    assert_eq!(ans.get_span(), Span::new2(0, 1, 0, 24, 4, 0));
    match ans {
        RawToken::InlineText(_, _, parsed) => assert_eq!(parsed, " \n  dasds \t\n"),
        other => panic!("not text: {:?}", other),
    }
}
