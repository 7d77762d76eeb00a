use bytelex::lexer::Lexer;
use bytelex::lexer::LexerTokenizer;
use bytelex::token::Token;
use bytelex::token::TokenCreate;

#[test]
fn sequence_integer() {
    let s = "1234567 1234567 12345";
    let mut reader = Lexer::from_string(s);
    assert_eq!(reader.get_token(), Token::create_token_numeric("1234567", 0, 7));
    assert_eq!(reader.get_token(), Token::create_token_numeric("1234567", 8, 7));
    assert_eq!(reader.get_token(), Token::create_token_numeric("12345", 16, 5));
    assert_eq!(reader.get_token(), Token::create_token_eof(s.len()));
}

#[test]
fn sequence_string() {
    let s = "'12345' \"12345\" '123'";
    let mut reader = Lexer::from_string(s);
    assert_eq!(reader.get_token(), Token::create_token_char("12345", 0, 7));
    assert_eq!(reader.get_token(), Token::create_token_string("12345", 8, 7));
    assert_eq!(reader.get_token(), Token::create_token_char("123", 16, 5));
    assert_eq!(reader.get_token(), Token::create_token_eof(s.len()));
}

#[test]
fn sequence_integer_string() {
    let s = "'12345' 2342365 \"123\"";
    let mut reader = Lexer::from_string(s);
    assert_eq!(reader.get_token(), Token::create_token_char("12345", 0, 7));
    assert_eq!(reader.get_token(), Token::create_token_numeric("2342365", 8, 7));
    assert_eq!(reader.get_token(), Token::create_token_string("123", 16, 5));
    assert_eq!(reader.get_token(), Token::create_token_eof(s.len()));
}

#[test]
fn sequence_ident() {
    let s = "work1 work2 work3";
    let mut reader = Lexer::from_string(s);
    assert_eq!(reader.get_token(), Token::create_token_ident("work1", 0, 5));
    assert_eq!(reader.get_token(), Token::create_token_ident("work2", 6, 5));
    assert_eq!(reader.get_token(), Token::create_token_ident("work3", 12, 5));
    assert_eq!(reader.get_token(), Token::create_token_eof(s.len()));
}

#[test]
fn eof_repeats_at_same_position() {
    let s = "x";
    let mut reader = Lexer::from_string(s);
    assert_eq!(reader.get_token(), Token::create_token_ident("x", 0, 1));
    assert_eq!(reader.get_token(), Token::create_token_eof(1));
    assert_eq!(reader.get_token(), Token::create_token_eof(1));
    assert_eq!(reader.get_token(), Token::create_token_eof(1));
}

#[test]
fn empty_input_is_eof() {
    let mut reader = Lexer::from_string("");
    assert_eq!(reader.get_token(), Token::create_token_eof(0));
    assert_eq!(reader.get_token(), Token::create_token_eof(0));
}

#[test]
fn whitespace_only_input_is_eof() {
    let s = " \t\r";
    let mut reader = Lexer::from_string(s);
    assert_eq!(reader.get_token(), Token::create_token_eof(3));
}

#[test]
fn whitespace_advances_position_by_its_byte_count() {
    let s = "  \t12";
    let mut reader = Lexer::from_string(s);
    assert_eq!(reader.get_token(), Token::create_token_numeric("12", 3, 2));
    assert_eq!(reader.get_token(), Token::create_token_eof(5));
}

#[test]
fn pushed_token_is_redelivered() {
    let mut reader = Lexer::from_string("ab");
    reader.push_token(Token::create_token_numeric("7", 100, 1));
    assert_eq!(reader.get_token(), Token::create_token_numeric("7", 100, 1));
    assert_eq!(reader.get_token(), Token::create_token_ident("ab", 0, 2));
    assert_eq!(reader.get_token(), Token::create_token_eof(2));
}

#[test]
fn invalid_byte_yields_marker_and_scan_resumes() {
    let s = "ab@cd";
    let mut reader = Lexer::from_string(s);
    assert_eq!(reader.get_token(), Token::create_token_ident("ab", 0, 2));
    assert_eq!(reader.get_token(), Token::create_invalid_char(String::from("@"), 2));
    assert_eq!(reader.get_token(), Token::create_token_ident("cd", 3, 2));
    assert_eq!(reader.get_token(), Token::create_token_eof(5));
}

#[test]
fn digit_run_then_letters_splits_into_two_tokens() {
    let s = "12ab";
    let mut reader = Lexer::from_string(s);
    assert_eq!(reader.get_token(), Token::create_token_numeric("12", 0, 2));
    assert_eq!(reader.get_token(), Token::create_token_ident("ab", 2, 2));
    assert_eq!(reader.get_token(), Token::create_token_eof(4));
}

#[test]
fn lexer_from_bytes_stops_at_zero_byte() {
    let mut reader = Lexer::from_bytes(vec![97, 0, 98]);
    assert_eq!(reader.get_token(), Token::create_token_ident("a", 0, 1));
    assert_eq!(reader.get_token(), Token::create_token_eof(1));
    assert_eq!(reader.get_token(), Token::create_token_eof(1));
}
