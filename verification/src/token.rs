use vstd::prelude::*;

verus! {

/// Mathematical model of a literal payload: the decoded characters.
pub enum TokenConstModel {
    Char(Seq<char>),
    String(Seq<char>),
    Numeric(Seq<char>),
}

/// Mathematical model of a token's classification.
pub enum TokenValueModel {
    Eof,
    InvalidChar(Seq<char>),
    Const(TokenConstModel),
    Ident(Seq<char>),
}

/// Mathematical model of a token: classification, absolute start offset of
/// the span in the source, and the count of raw source bytes it spans.
pub struct TokenModel {
    pub value: TokenValueModel,
    pub pos: nat,
    pub len: nat,
}

/// Payload of a constant token: a quoted character literal, a quoted string
/// literal (both hold the decoded content) or a numeric literal (as-written
/// digit run). A `Char` may hold any number of characters; it differs from
/// `String` only in the delimiter byte that produced it.
#[derive(Debug)]
pub enum TokenConst {
    Char(String),
    String(String),
    Numeric(String),
}

/// Classification of a scanned span: end of input, a byte outside every
/// lexical class, a constant literal, or an identifier.
#[derive(Debug)]
pub enum TokenValue {
    Eof,
    InvalidChar(String),
    Const(TokenConst),
    Ident(String),
}

/// A classified span of source bytes. `pos` is the absolute offset of the
/// span's first byte; `len` counts raw input bytes, which for quoted
/// literals includes delimiters and escape sequences.
#[derive(Debug)]
pub struct Token {
    value: TokenValue,
    pos: usize,
    len: usize,
}

impl View for TokenConst {
    type V = TokenConstModel;

    closed spec fn view(&self) -> TokenConstModel {
        match self {
            TokenConst::Char(s) => TokenConstModel::Char(s@),
            TokenConst::String(s) => TokenConstModel::String(s@),
            TokenConst::Numeric(s) => TokenConstModel::Numeric(s@),
        }
    }
}

impl View for TokenValue {
    type V = TokenValueModel;

    closed spec fn view(&self) -> TokenValueModel {
        match self {
            TokenValue::Eof => TokenValueModel::Eof,
            TokenValue::InvalidChar(s) => TokenValueModel::InvalidChar(s@),
            TokenValue::Const(c) => TokenValueModel::Const(c@),
            TokenValue::Ident(s) => TokenValueModel::Ident(s@),
        }
    }
}

impl View for Token {
    type V = TokenModel;

    closed spec fn view(&self) -> TokenModel {
        TokenModel { value: self.value@, pos: self.pos as nat, len: self.len as nat }
    }
}

impl PartialEq for TokenValue {
    fn eq(&self, other: &TokenValue) -> bool {
        match (self, other) {
            (TokenValue::Eof, TokenValue::Eof) => true,
            (TokenValue::Const(v1), TokenValue::Const(v2)) => *v1 == *v2,
            (TokenValue::Ident(v1), TokenValue::Ident(v2)) => *v1 == *v2,
            (TokenValue::InvalidChar(v1), TokenValue::InvalidChar(v2)) => *v1 == *v2,
            _ => false,
        }
    }
}

impl vstd::std_specs::cmp::PartialEqSpecImpl for TokenValue {
    open spec fn obeys_eq_spec() -> bool {
        true
    }

    open spec fn eq_spec(&self, other: &TokenValue) -> bool {
        self@ == other@
    }
}

impl PartialEq for Token {
    fn eq(&self, other: &Token) -> bool {
        self.pos == other.pos && self.value == other.value && self.len == other.len
    }
}

impl vstd::std_specs::cmp::PartialEqSpecImpl for Token {
    open spec fn obeys_eq_spec() -> bool {
        true
    }

    open spec fn eq_spec(&self, other: &Token) -> bool {
        self@ == other@
    }
}

impl PartialEq for TokenConst {
    fn eq(&self, other: &TokenConst) -> bool {
        match (self, other) {
            (TokenConst::Numeric(v1), TokenConst::Numeric(v2)) => *v1 == *v2,
            (TokenConst::String(v1), TokenConst::String(v2)) => *v1 == *v2,
            (TokenConst::Char(v1), TokenConst::Char(v2)) => *v1 == *v2,
            _ => false,
        }
    }
}

impl vstd::std_specs::cmp::PartialEqSpecImpl for TokenConst {
    open spec fn obeys_eq_spec() -> bool {
        true
    }

    open spec fn eq_spec(&self, other: &TokenConst) -> bool {
        self@ == other@
    }
}

/// Construction of tokens of every classification.
pub trait TokenCreate {
    fn create(value: TokenValue, pos: usize, len: usize) -> (t: Token)
        ensures
            t@ == (TokenModel { value: value@, pos: pos as nat, len: len as nat }),
    ;

    fn create_token_const(value: TokenConst, pos: usize, len: usize) -> (t: Token)
        ensures
            t@ == (TokenModel {
                value: TokenValueModel::Const(value@),
                pos: pos as nat,
                len: len as nat,
            }),
    ;

    fn create_token_string(value: &str, pos: usize, len: usize) -> (t: Token)
        ensures
            t@ == (TokenModel {
                value: TokenValueModel::Const(TokenConstModel::String(value@)),
                pos: pos as nat,
                len: len as nat,
            }),
    ;

    fn create_token_char(value: &str, pos: usize, len: usize) -> (t: Token)
        ensures
            t@ == (TokenModel {
                value: TokenValueModel::Const(TokenConstModel::Char(value@)),
                pos: pos as nat,
                len: len as nat,
            }),
    ;

    fn create_token_ident(value: &str, pos: usize, len: usize) -> (t: Token)
        ensures
            t@ == (TokenModel {
                value: TokenValueModel::Ident(value@),
                pos: pos as nat,
                len: len as nat,
            }),
    ;

    fn create_token_eof(pos: usize) -> (t: Token)
        ensures
            t@ == (TokenModel { value: TokenValueModel::Eof, pos: pos as nat, len: 0 }),
    ;

    fn create_invalid_char(value: String, pos: usize) -> (t: Token)
        ensures
            t@ == (TokenModel {
                value: TokenValueModel::InvalidChar(value@),
                pos: pos as nat,
                len: 1,
            }),
    ;

    fn create_token_numeric(value: &str, pos: usize, len: usize) -> (t: Token)
        ensures
            t@ == (TokenModel {
                value: TokenValueModel::Const(TokenConstModel::Numeric(value@)),
                pos: pos as nat,
                len: len as nat,
            }),
    ;
}

impl TokenCreate for Token {
    fn create(value: TokenValue, pos: usize, len: usize) -> Token {
        Token { value, pos, len }
    }

    fn create_token_const(value: TokenConst, pos: usize, len: usize) -> Token {
        Token::create(TokenValue::Const(value), pos, len)
    }

    fn create_token_string(value: &str, pos: usize, len: usize) -> Token {
        Token::create_token_const(TokenConst::String(value.to_owned()), pos, len)
    }

    fn create_token_char(value: &str, pos: usize, len: usize) -> Token {
        Token::create_token_const(TokenConst::Char(value.to_owned()), pos, len)
    }

    fn create_token_numeric(value: &str, pos: usize, len: usize) -> Token {
        Token::create_token_const(TokenConst::Numeric(value.to_owned()), pos, len)
    }

    fn create_token_eof(pos: usize) -> Token {
        Token::create(TokenValue::Eof, pos, 0)
    }

    fn create_invalid_char(value: String, pos: usize) -> Token {
        Token::create(TokenValue::InvalidChar(value), pos, 1)
    }

    fn create_token_ident(value: &str, pos: usize, len: usize) -> Token {
        Token::create(TokenValue::Ident(value.to_owned()), pos, len)
    }
}

} // verus!
