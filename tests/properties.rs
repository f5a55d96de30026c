use cptml::chars::{
    bytes_to_char, char_size, is_id_continue, is_id_start, is_reserved_char, is_valid_id_first_char,
    is_valid_id_next_char, is_whitespace, u32_to_char, CharErrorEnum,
};
use cptml::errors::ParserError;
use cptml::number::parse_number;
use cptml::peek_reader::PeekReader;
use cptml::pos::{Position, Span};
use cptml::raw_tokenizer::{parse_code_block, parse_inline_text, parse_math, RawTokenizer, State};
use cptml::token::{AttrValue, BasicName, RawToken};

fn all_tokens(input: &str) -> (Vec<RawToken>, ParserError) {
    let mut t = RawTokenizer::new(PeekReader::from_str(input));
    let mut out = Vec::new();
    loop {
        match t.next() {
            Ok(tok) => out.push(tok),
            Err(e) => return (out, e),
        }
    }
}

fn chars_of(s: &str) -> Vec<char> {
    s.chars().collect()
}

#[test]
fn round_trip_concatenates_to_input() {
    let inputs = [
        "{emph \t\n!id=\"elem\" num=3._14;\nhi }",
        "plain text, nothing else",
        "{m}$x+1${n}$$y$${o}```rust\nfn f() {}``` d",
        "<(v)tei:line k=1|words|(v)tei:line> tail",
        "hello > world!{!x}",
    ];
    for input in inputs.iter() {
        let (toks, end) = all_tokens(input);
        assert_eq!(end, ParserError::EndOfInput);
        let joined: String = toks.iter().map(|t| t.get_raw()).collect();
        assert_eq!(&joined, input);
    }
}

#[test]
fn spans_match_raw_byte_lengths_and_increase() {
    let input = "{a §=1}\n冬 text <b|x|b>";
    let mut t = RawTokenizer::new(PeekReader::from_str(input));
    let mut last_end = Position::new();
    while let Ok(tok) = t.next() {
        let span = tok.get_span();
        assert_eq!(span.len(), tok.get_raw().len());
        assert_eq!(span.start, last_end);
        assert!(span.end.byte > span.start.byte);
        last_end = span.end;
    }
}

#[test]
fn positions_count_lines_and_columns() {
    let (toks, _) = all_tokens("ab\ncd");
    assert_eq!(toks[0].get_span(), Span::new2(0, 1, 0, 5, 2, 2));
    let (toks, _) = all_tokens("{x}\u{2028}y");
    assert_eq!(toks.last().unwrap().get_span(), Span::new2(3, 1, 3, 7, 2, 1));
}

#[test]
fn plain_text_parses_to_itself() {
    let mut input = PeekReader::from_str("just words, with punctuation: 1 + 2 = 3!");
    let mut state = State::new();
    let ans = parse_inline_text(&mut input, &mut state);
    assert_eq!(
        ans,
        Ok(RawToken::InlineText(
            Span::new(),
            "just words, with punctuation: 1 + 2 = 3!".to_string(),
            "just words, with punctuation: 1 + 2 = 3!".to_string()
        ))
    );
}

#[test]
fn numeric_literals() {
    assert_eq!(parse_number(&chars_of("1_000")), Some(AttrValue::Integer(1000)));
    assert_eq!(parse_number(&chars_of("1_000.3__4")), Some(AttrValue::Float(100034, -2)));
    assert_eq!(parse_number(&chars_of("0xA")), Some(AttrValue::Integer(10)));
    assert_eq!(parse_number(&chars_of("0xff_FF")), Some(AttrValue::Integer(65535)));
    assert_eq!(parse_number(&chars_of("_")), None);
    assert_eq!(parse_number(&chars_of("314E-2")), Some(AttrValue::Float(314, -2)));
    assert_eq!(parse_number(&chars_of("1e+3")), Some(AttrValue::Float(1, 3)));
    assert_eq!(parse_number(&chars_of("2.5e1")), Some(AttrValue::Float(25, 0)));
    assert_eq!(parse_number(&chars_of("1.2.3")), None);
    assert_eq!(parse_number(&chars_of("0x")), None);
    assert_eq!(parse_number(&chars_of("1e")), None);
    assert_eq!(parse_number(&chars_of("12a")), None);
    assert_eq!(
        parse_number(&chars_of("9223372036854775807")),
        Some(AttrValue::Integer(9223372036854775807))
    );
    assert_eq!(parse_number(&chars_of("9223372036854775808")), None);
}

fn code_block(input: &str) -> Result<RawToken, ParserError> {
    let mut src = PeekReader::from_str(input);
    let mut state = State::new();
    parse_code_block(&mut src, &mut state)
}

fn lang_and_content(r: Result<RawToken, ParserError>) -> (String, String) {
    match r {
        Ok(RawToken::CodeBlock(_, _, lang, content)) => (lang, content),
        other => panic!("not a code block: {:?}", other),
    }
}

#[test]
fn code_block_backtick_accounting() {
    assert_eq!(lang_and_content(code_block("`hi`")), ("".to_string(), "hi".to_string()));
    assert_eq!(
        lang_and_content(code_block("`rust\t\tuse`")),
        ("rust".to_string(), "use".to_string())
    );
    assert_eq!(
        lang_and_content(code_block("`rust\nuse`")),
        ("rust".to_string(), "use".to_string())
    );
    assert_eq!(
        lang_and_content(code_block("`rust use`")),
        ("".to_string(), "rust use".to_string())
    );
    assert_eq!(lang_and_content(code_block("` `")), ("".to_string(), " ".to_string()));
    assert_eq!(
        lang_and_content(code_block("```hi ``!```")),
        ("".to_string(), "hi ``!".to_string())
    );
    assert_eq!(
        lang_and_content(code_block("```hi `````")),
        ("".to_string(), "hi ``".to_string())
    );
    assert_eq!(
        lang_and_content(code_block("``rust`use```")),
        ("".to_string(), "rust`use`".to_string())
    );
}

#[test]
fn code_block_stops_after_closing_run() {
    let mut src = PeekReader::from_str("`rust`use`");
    let mut state = State::new();
    let ans = parse_code_block(&mut src, &mut state);
    assert_eq!(
        ans,
        Ok(RawToken::CodeBlock(
            Span::new(),
            "`rust`".to_string(),
            "".to_string(),
            "rust".to_string()
        ))
    );
    assert_eq!(src.pop(), 'u');
}

#[test]
fn test_parse_code_block_1() {
    let input_str = "```a```";
    let mut t = RawTokenizer::new(PeekReader::from_str(input_str));
    let ans = t.next();
    assert_eq!(
        ans,
        Ok(RawToken::CodeBlock(
            Span::new2(0, 1, 0, 7, 1, 7),
            input_str.to_string(),
            "".to_string(),
            "a".to_string()
        ))
    );
}

#[test]
fn unterminated_code_block_is_an_error() {
    assert_eq!(
        code_block("```abc``"),
        Err(ParserError::MissingTerminator(Position::new2(8, 1, 8), '`'))
    );
}

#[test]
fn math_spans() {
    let mut src = PeekReader::from_str("$a+b$ rest");
    let mut state = State::new();
    assert_eq!(
        parse_math(&mut src, &mut state),
        Ok(RawToken::InlineMathText(Span::new(), "$a+b$".to_string(), "a+b".to_string()))
    );
    let mut src = PeekReader::from_str("$$x$y$$");
    assert_eq!(
        parse_math(&mut src, &mut state),
        Ok(RawToken::DisplayMathText(Span::new(), "$$x$y$$".to_string(), "x$y".to_string()))
    );
    let mut src = PeekReader::from_str("$open");
    assert_eq!(
        parse_math(&mut src, &mut state),
        Err(ParserError::MissingTerminator(Position::new2(5, 1, 5), '$'))
    );
}

#[test]
fn tag_delimiter_ambiguity() {
    let (toks, _) = all_tokens("hello > world!");
    assert_eq!(toks.len(), 1);
    assert_eq!(toks[0].get_raw(), "hello > world!");
    let (toks, _) = all_tokens("hello} world!{!");
    assert_eq!(toks[0].get_raw(), "hello");
    assert!(matches!(toks[1], RawToken::CurlyTagEnd(_, '}')));
    assert_eq!(toks[2].get_raw(), " world!");
}

#[test]
fn name_parsing() {
    let (toks, _) = all_tokens("{!cptml}");
    assert_eq!(
        toks[0],
        RawToken::CurlyTagStart(
            Span::new2(0, 1, 0, 7, 1, 7),
            "{!cptml".to_string(),
            BasicName::new("", true, "", "!cptml")
        )
    );
    let (toks, _) = all_tokens("{tei:span}");
    assert_eq!(
        toks[0],
        RawToken::CurlyTagStart(
            Span::new2(0, 1, 0, 9, 1, 9),
            "{tei:span".to_string(),
            BasicName::new("", false, "tei", "span")
        )
    );
    let (toks, _) = all_tokens("<(文法)tei:sentence|");
    match &toks[0] {
        RawToken::PointyTagHead(_, raw, name) => {
            assert_eq!(raw, "<(文法)tei:sentence");
            assert_eq!(name, &BasicName::new("文法", false, "tei", "sentence"));
        }
        other => panic!("unexpected {:?}", other),
    }
}

#[test]
fn escapes_in_text() {
    let mut src = PeekReader::from_str("a\\s\\{\\u1F4DA;\\n");
    let mut state = State::new();
    assert_eq!(
        parse_inline_text(&mut src, &mut state),
        Ok(RawToken::InlineText(
            Span::new(),
            "a\\s\\{\\u1F4DA;\\n".to_string(),
            "a {📚\n".to_string()
        ))
    );
    let mut src = PeekReader::from_str("\\q");
    assert_eq!(
        parse_inline_text(&mut src, &mut state),
        Err(ParserError::IllegalEscapeSequence(Position::new2(1, 1, 1), "\\q".to_string()))
    );
    let mut src = PeekReader::from_str("\\uD801;");
    assert_eq!(
        parse_inline_text(&mut src, &mut state),
        Err(ParserError::IllegalEscapeSequence(Position::new2(6, 1, 6), "\\uD801".to_string()))
    );
    let mut src = PeekReader::from_str("\\u12G;");
    assert_eq!(
        parse_inline_text(&mut src, &mut state),
        Err(ParserError::IllegalEscapeSequence(Position::new2(4, 1, 4), "\\u12G".to_string()))
    );
}

#[test]
fn tokenizer_errors() {
    let (_, e) = all_tokens("{a x}");
    assert_eq!(e, ParserError::IllegalCharMsg(Position::new2(4, 1, 4), '}', "valid id char".to_string()));
    let (_, e) = all_tokens("{a x=y}");
    assert!(matches!(e, ParserError::IllegalChar2(_, 'y', _)));
    let (_, e) = all_tokens("{a x=1_}");
    assert_eq!(e, ParserError::EndOfInput);
    let (_, e) = all_tokens("{a x=_}");
    assert!(matches!(e, ParserError::IllegalChar2(_, '_', _)));
    let (_, e) = all_tokens("{a x=\"open}");
    assert_eq!(e, ParserError::MissingTerminator(Position::new2(11, 1, 11), '"'));
    let (_, e) = all_tokens("{a x=1.2.3}");
    assert_eq!(
        e,
        ParserError::IllegalNumber(Span::new2(5, 1, 5, 10, 1, 10), "1.2.3".to_string())
    );
    let mut t = RawTokenizer::new(PeekReader::new(vec![b'a', 0xC3]));
    assert!(t.next().is_ok());
    assert_eq!(
        t.next(),
        Err(ParserError::CharError(CharErrorEnum::SliceTooShort(2, vec![0xC3])))
    );
}

#[test]
fn pushback_replays_the_token() {
    let mut t = RawTokenizer::new(PeekReader::from_str("ab{c}"));
    let first = t.next();
    assert!(!t.has_pending());
    t.unnext(first.clone());
    assert!(t.has_pending());
    assert_eq!(t.next(), first);
    assert!(matches!(t.next(), Ok(RawToken::CurlyTagStart(..))));
}

#[test]
fn utf8_decoding() {
    assert_eq!(bytes_to_char(&[0x61]), Ok(('a', 1)));
    assert_eq!(bytes_to_char("§".as_bytes()), Ok(('§', 2)));
    assert_eq!(bytes_to_char("冬".as_bytes()), Ok(('冬', 3)));
    assert_eq!(bytes_to_char("📚".as_bytes()), Ok(('📚', 4)));
    assert_eq!(bytes_to_char(&[]), Err(CharErrorEnum::SliceTooShort(1, vec![])));
    assert_eq!(bytes_to_char(&[0x80]), Err(CharErrorEnum::InvalidFirstByte(0x80)));
    assert_eq!(bytes_to_char(&[0xE6, 0x86]), Err(CharErrorEnum::SliceTooShort(3, vec![0xE6, 0x86])));
    assert_eq!(bytes_to_char(&[0xC3, 0x41]), Err(CharErrorEnum::InvalidContinuationByte(0x41)));
    assert_eq!(bytes_to_char(&[0xC0, 0x80]), Err(CharErrorEnum::OverlongEncoding(0)));
    assert_eq!(bytes_to_char(&[0xED, 0xA0, 0x80]), Err(CharErrorEnum::SurrogateInUtf8(0xD800)));
    assert_eq!(
        bytes_to_char(&[0xF4, 0x90, 0x80, 0x80]),
        Err(CharErrorEnum::ScalarTooLarge(0x110000))
    );
    assert_eq!(char_size(0x41), Ok(1));
    assert_eq!(char_size(0xF0), Ok(4));
    assert_eq!(char_size(0xF5), Err(CharErrorEnum::InvalidFirstByte(0xF5)));
    assert_eq!(u32_to_char(0x222B), Ok('∫'));
    assert_eq!(u32_to_char(0xDC37), Err(CharErrorEnum::SurrogateInUtf8(0xDC37)));
    assert_eq!(u32_to_char(0x110000), Err(CharErrorEnum::ScalarTooLarge(0x110000)));
}

#[test]
fn character_classes() {
    assert!(is_id_start('a'));
    assert!(is_id_start('名'));
    assert!(is_id_start('_'));
    assert!(!is_id_start('1'));
    assert!(is_id_continue('1'));
    assert!(!is_id_continue(' '));
    assert!(is_valid_id_first_char('ö'));
    assert!(!is_valid_id_first_char('1'));
    assert!(is_valid_id_next_char('1'));
    assert!(is_valid_id_next_char('_'));
    assert!(!is_valid_id_next_char('-'));
    assert!(is_whitespace('\u{3000}'));
    assert!(!is_whitespace('x'));
    assert!(is_reserved_char('|'));
    assert!(!is_reserved_char('a'));
}

#[test]
fn span_helpers() {
    let mut s = Span::new_from(Position::new2(3, 1, 3));
    s.step('冬');
    assert_eq!(s.end, Position::new2(6, 1, 4));
    assert_eq!(s.len(), 3);
    s.step('\n');
    assert_eq!(s.end, Position::new2(7, 2, 0));
    s.rotate();
    assert_eq!(s.start, s.end);
    assert_eq!(Position::new().start_span(), Span::new());
}

#[test]
fn double_dollar_opens_display_math() {
    let mut src = PeekReader::from_str("$$a$$");
    let mut state = State::new();
    assert_eq!(
        parse_math(&mut src, &mut state),
        Ok(RawToken::DisplayMathText(Span::new(), "$$a$$".to_string(), "a".to_string()))
    );
}

#[test]
fn unclosed_code_block_is_reported() {
    assert_eq!(
        code_block("```abc"),
        Err(ParserError::MissingTerminator(Position::new2(6, 1, 6), '`'))
    );
    assert_eq!(
        code_block("``a`"),
        Err(ParserError::MissingTerminator(Position::new2(4, 1, 4), '`'))
    );
}

#[test]
fn attribute_name_errors() {
    let mut src = PeekReader::from_str("ns:=1");
    let mut state = State::new();
    assert_eq!(
        cptml::raw_tokenizer::parse_attr_name(&mut src, &mut state),
        Err(ParserError::MissingLocalName(Position::new2(0, 1, 0)))
    );
    let mut src = PeekReader::from_str("=1");
    assert_eq!(
        cptml::raw_tokenizer::parse_attr_name(&mut src, &mut state),
        Err(ParserError::IllegalCharMsg(Position::new2(0, 1, 0), '=', "valid id char".to_string()))
    );
}

#[test]
fn string_escape_errors() {
    let mut src = PeekReader::from_str("\"a\\q\"");
    let mut state = State::new();
    assert_eq!(
        cptml::raw_tokenizer::parse_string_value(&mut src, &mut state),
        Err(ParserError::IllegalEscapeSequence(Position::new2(3, 1, 3), "\\q".to_string()))
    );
    let mut src = PeekReader::from_str("\"\\u110000;\"");
    assert!(matches!(
        cptml::raw_tokenizer::parse_string_value(&mut src, &mut state),
        Err(ParserError::IllegalEscapeSequence(..))
    ));
}

#[test]
fn a_name_with_only_a_view_is_not_empty() {
    assert!(!BasicName::new("v", false, "", "").is_empty());
    assert!(BasicName::new_empty().is_empty());
}

#[test]
fn an_error_can_be_handed_back() {
    let mut t = RawTokenizer::new(PeekReader::from_str("{a x=y}"));
    let mut last = t.next();
    while last.is_ok() {
        last = t.next();
    }
    t.unnext(last.clone());
    assert_eq!(t.next(), last);
}
