use ason::charstream::CharStream;
use ason::cursor::Cursor;
use ason::lexer::lex;
use ason::token::Token;

#[test]
fn test_read_all_decodes_whole_documents() {
    let mut stream = CharStream::new("{a: 1} // 文字".bytes().collect());
    let chars = stream.read_all().unwrap();
    assert_eq!(chars, "{a: 1} // 文字".chars().collect::<Vec<char>>());

    // the decoded scalars feed the tokenizer unchanged
    let mut iter = Cursor::new(chars);
    let tokens = lex(&mut iter).unwrap();
    assert_eq!(tokens[0], Token::LeftBrace);
    assert_eq!(tokens.len(), 6);
}

#[test]
fn test_read_char_rejects_malformed_encodings() {
    // a lone continuation byte has no leading-byte form
    let mut stream = CharStream::new(vec![0x80]);
    assert!(stream.read_char().is_err());

    // a two-byte leading byte with nothing after it is incomplete
    let mut stream = CharStream::new(vec![0xc3]);
    assert!(stream.read_char().is_err());

    // a three-byte sequence encoding a surrogate is no scalar value
    let mut stream = CharStream::new(vec![0xed, 0xa0, 0x80]);
    assert!(stream.read_char().is_err());

    // a well-formed pair after the error point is still readable
    let mut stream = CharStream::new(vec![0xc3, 0xa9]);
    assert_eq!(stream.read_char().unwrap(), Some('é'));
    assert_eq!(stream.read_char().unwrap(), None);
}
