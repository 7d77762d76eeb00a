use bytelex::lexer::Lexer;
use bytelex::lexer::LexerTokenizer;
use bytelex::scanner::div_ceil;
use bytelex::scanner::Scanner;
use bytelex::scanner::ScannerRead;
use bytelex::token::Token;
use bytelex::token::TokenCreate;

#[test]
fn div_ceil_values() {
    assert_eq!(div_ceil(0, 8), 0);
    assert_eq!(div_ceil(1, 8), 1);
    assert_eq!(div_ceil(7, 8), 1);
    assert_eq!(div_ceil(8, 8), 1);
    assert_eq!(div_ceil(9, 8), 2);
    assert_eq!(div_ceil(16, 8), 2);
    assert_eq!(div_ceil(17, 8), 3);
    assert_eq!(div_ceil(5, 1), 5);
}

#[test]
fn scanner_read_produces_single_token_batches() {
    let mut sc = Scanner::from_string("hi 42");
    let batch1 = sc.read();
    assert_eq!(batch1.len(), 1);
    assert_eq!(batch1[0], Token::create_token_ident("hi", 0, 2));
    let batch2 = sc.read();
    assert_eq!(batch2.len(), 1);
    assert_eq!(batch2[0], Token::create_token_numeric("42", 3, 2));
    let batch3 = sc.read();
    assert_eq!(batch3.len(), 1);
    assert_eq!(batch3[0], Token::create_token_eof(5));
}

#[test]
fn scanner_from_bytes_reads_identifier() {
    let mut sc = Scanner::from_bytes(vec![119, 111, 114, 107]);
    let batch = sc.read();
    assert_eq!(batch[0], Token::create_token_ident("work", 0, 4));
}

#[test]
fn escape_specifiers_decode_to_control_characters() {
    let s = "\"a\\nb\" \"a\\tb\" \"a\\rb\"";
    let mut reader = Lexer::from_string(s);
    assert_eq!(reader.get_token(), Token::create_token_string("a\nb", 0, 6));
    assert_eq!(reader.get_token(), Token::create_token_string("a\tb", 7, 6));
    assert_eq!(reader.get_token(), Token::create_token_string("a\rb", 14, 6));
    assert_eq!(reader.get_token(), Token::create_token_eof(s.len()));
}

#[test]
fn unknown_escape_specifier_retains_the_backslash() {
    // The decoded text keeps the backslash and drops the specifier byte's
    // own graphical content; both bytes still count toward the span.
    let s = "\"a\\qb\"";
    let mut reader = Lexer::from_string(s);
    assert_eq!(reader.get_token(), Token::create_token_string("a\\b", 0, 6));
    assert_eq!(reader.get_token(), Token::create_token_eof(s.len()));
}

#[test]
fn escaped_delimiter_does_not_close_the_literal() {
    let s = "'a\\'b'";
    let mut reader = Lexer::from_string(s);
    assert_eq!(reader.get_token(), Token::create_token_char("a\\b", 0, 6));
    assert_eq!(reader.get_token(), Token::create_token_eof(s.len()));
}

#[test]
fn unterminated_literal_covers_all_remaining_bytes() {
    let s = "'abc";
    let mut reader = Lexer::from_string(s);
    assert_eq!(reader.get_token(), Token::create_token_char("abc", 0, 4));
    assert_eq!(reader.get_token(), Token::create_token_eof(4));
}

#[test]
fn unterminated_literal_ending_in_backslash() {
    let s = "'a\\";
    let mut reader = Lexer::from_string(s);
    assert_eq!(reader.get_token(), Token::create_token_char("a\\", 0, 3));
    assert_eq!(reader.get_token(), Token::create_token_eof(3));
}

#[test]
fn lone_invalid_byte() {
    let mut reader = Lexer::from_string("@");
    assert_eq!(reader.get_token(), Token::create_invalid_char(String::from("@"), 0));
    assert_eq!(reader.get_token(), Token::create_token_eof(1));
}

#[test]
fn char_literal_may_hold_many_characters() {
    let s = "'12345'";
    let mut reader = Lexer::from_string(s);
    assert_eq!(reader.get_token(), Token::create_token_char("12345", 0, 7));
}

#[test]
fn token_equality_is_structural() {
    let a = Token::create_token_ident("ab", 1, 2);
    let b = Token::create_token_ident("ab", 1, 2);
    let c = Token::create_token_ident("ab", 2, 2);
    let d = Token::create_token_string("ab", 1, 2);
    assert_eq!(a, b);
    assert_ne!(a, c);
    assert_ne!(a, d);
    assert_ne!(
        Token::create_token_char("x", 0, 3),
        Token::create_token_string("x", 0, 3)
    );
}
