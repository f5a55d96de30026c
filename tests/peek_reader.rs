use cptml::peek_reader::PeekReader;

#[test]
fn peek_reader_it_works() {
    let s = "hello world!§abcdefghijklmnopqrstuvwxyz ABCDEFGHIJKLMNOPQRSTUVWXYZ\n1§ªº冬";
    let mut parser = PeekReader::from_str(s);
    assert_eq!('\0', parser.peek(-1));
    assert_eq!('h', parser.peek(0));
    assert_eq!('e', parser.peek(1));
    assert_eq!('h', parser.pop());
    assert_eq!('e', parser.pop());
    assert_eq!('l', parser.pop());
    assert_eq!('l', parser.pop());
    assert_eq!('o', parser.pop());
    assert_eq!(' ', parser.pop());
    assert_eq!('w', parser.pop());
    assert_eq!('o', parser.pop());
    assert_eq!('r', parser.pop());
    assert_eq!('l', parser.pop());
    assert_eq!('d', parser.pop());
    assert_eq!('!', parser.pop());
    assert_eq!('§', parser.pop());
    for c in "abcdefghijklmnopqrstuvwxyz ABCDEFGHIJKLMNOPQRSTUVWXYZ".chars() {
        assert_eq!(c, parser.pop());
    }
    assert_eq!('\n', parser.pop());
    assert_eq!('X', parser.peek(-4));
    assert_eq!('Y', parser.peek(-3));
    assert_eq!('Z', parser.peek(-2));
    assert_eq!('\n', parser.peek(-1));
    assert_eq!('1', parser.peek(0));
    assert_eq!('§', parser.peek(1));
    assert_eq!('ª', parser.peek(2));
    assert_eq!('º', parser.peek(3));
    assert_eq!('冬', parser.peek(4));
    assert_eq!('1', parser.pop());
    assert_eq!('§', parser.pop());
    assert_eq!('ª', parser.pop());
    assert_eq!('º', parser.pop());
    assert_eq!('冬', parser.pop());
    assert_eq!('\0', parser.pop());
    assert_eq!('\0', parser.pop());
    assert_eq!('\0', parser.pop());
}

#[test]
fn reader_tracks_positions() {
    let mut r = PeekReader::from_str("a§\n冬\u{2028}x");
    assert_eq!(r.get_pos(), cptml::pos::Position::new2(0, 1, 0));
    r.pop();
    assert_eq!(r.get_pos(), cptml::pos::Position::new2(1, 1, 1));
    r.pop();
    assert_eq!(r.get_pos(), cptml::pos::Position::new2(3, 1, 2));
    r.pop();
    assert_eq!(r.get_pos(), cptml::pos::Position::new2(4, 2, 0));
    r.pop();
    assert_eq!(r.get_pos(), cptml::pos::Position::new2(7, 2, 1));
    r.pop();
    assert_eq!(r.get_pos(), cptml::pos::Position::new2(10, 3, 0));
    r.pop();
    assert_eq!(r.get_pos(), cptml::pos::Position::new2(11, 3, 1));
}

#[test]
fn reader_stops_at_malformed_bytes() {
    let mut r = PeekReader::new(vec![b'a', 0xff, b'b']);
    assert_eq!(r.pop(), 'a');
    assert_eq!(r.pop(), '\0');
    assert_eq!(
        r.get_error(),
        &Some(cptml::chars::CharErrorEnum::InvalidFirstByte(0xff))
    );
}

#[test]
fn peek_string_looks_around() {
    let mut r = PeekReader::from_str("ab```c");
    assert_eq!(r.peek_string(0, 2), "ab`");
    r.pop();
    r.pop();
    assert_eq!(r.peek_string(-2, 2), "ab```");
    assert_eq!(r.peek_string(-4, -1), "\0\0ab");
    assert_eq!(r.pop(), '`');
}
