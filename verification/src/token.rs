//! Tokens of the SQL-dump subset, each carrying its exact source bytes.
use vstd::prelude::*;
use vstd::string::StringSliceAdditionalSpecFns;

use crate::ascii;

verus! {

/// The class of a token, without its bytes.
#[derive(Clone, Copy, Debug, PartialEq, Eq, Structural)]
pub enum TokenKind {
    String,
    Keyword,
    Comment,
    InlineComment,
    Identifier,
    LineFeed,
    Space,
    Comma,
    LP,
    RP,
    SemiColon,
    Ignore,
    Dot,
    EOF,
}

/// A token together with the bytes it was read from.
#[derive(Debug, Clone, PartialEq)]
pub enum Token {
    /// A quoted literal or a run of digits.
    String(Vec<u8>),
    /// A run of ASCII letters.
    Keyword(Vec<u8>),
    /// A `/* ... */` comment.
    Comment(Vec<u8>),
    /// A `-- ...` comment, through the end of its line.
    InlineComment(Vec<u8>),
    /// A backtick-quoted name.
    Identifier(Vec<u8>),
    /// A carriage return, a line feed or a tab; the byte says which.
    LineFeed(u8),
    Space,
    Comma,
    LP,
    RP,
    SemiColon,
    /// Any byte outside the recognised grammar, passed through as it is.
    Ignore(u8),
    Dot,
    /// The end of the input; it has no bytes.
    EOF,
}

/// The mathematical value of a token: its class and its source bytes.
pub struct TokenView {
    pub kind: TokenKind,
    pub bytes: Seq<u8>,
}

impl View for Token {
    type V = TokenView;

    open spec fn view(&self) -> TokenView {
        match *self {
            Token::String(chunk) => TokenView { kind: TokenKind::String, bytes: chunk@ },
            Token::Keyword(chunk) => TokenView { kind: TokenKind::Keyword, bytes: chunk@ },
            Token::Comment(chunk) => TokenView { kind: TokenKind::Comment, bytes: chunk@ },
            Token::InlineComment(chunk) => TokenView {
                kind: TokenKind::InlineComment,
                bytes: chunk@,
            },
            Token::Identifier(chunk) => TokenView { kind: TokenKind::Identifier, bytes: chunk@ },
            Token::LineFeed(byte) => TokenView { kind: TokenKind::LineFeed, bytes: seq![byte] },
            Token::Space => TokenView { kind: TokenKind::Space, bytes: seq![ascii::SPACE] },
            Token::Comma => TokenView { kind: TokenKind::Comma, bytes: seq![ascii::COMMA] },
            Token::LP => TokenView { kind: TokenKind::LP, bytes: seq![ascii::LEFT_PAREN] },
            Token::RP => TokenView { kind: TokenKind::RP, bytes: seq![ascii::RIGHT_PAREN] },
            Token::SemiColon => TokenView { kind: TokenKind::SemiColon, bytes: seq![ascii::SEMICOLON] },
            Token::Ignore(byte) => TokenView { kind: TokenKind::Ignore, bytes: seq![byte] },
            Token::Dot => TokenView { kind: TokenKind::Dot, bytes: seq![ascii::DOT] },
            Token::EOF => TokenView { kind: TokenKind::EOF, bytes: Seq::empty() },
        }
    }
}

/// Whether two vectors hold the same bytes.
fn same_bytes(a: &Vec<u8>, b: &Vec<u8>) -> (r: bool)
    ensures
        r == (a@ == b@),
{
    if a.len() != b.len() {
        return false;
    }
    let mut i: usize = 0;
    while i < a.len()
        invariant
            i <= a.len(),
            a.len() == b.len(),
            forall|j: int| 0 <= j < i ==> a@[j] == b@[j],
        decreases a.len() - i,
    {
        if a[i] != b[i] {
            return false;
        }
        i += 1;
    }
    assert(a@ =~= b@);
    true
}

impl Token {
    /// Whether this token and `other` are of one class and hold the same
    /// bytes.
    pub fn same(&self, other: &Token) -> (r: bool)
        ensures
            r == (self@ == other@),
    {
        match (self, other) {
            (Token::String(a), Token::String(b)) => same_bytes(a, b),
            (Token::Keyword(a), Token::Keyword(b)) => same_bytes(a, b),
            (Token::Comment(a), Token::Comment(b)) => same_bytes(a, b),
            (Token::InlineComment(a), Token::InlineComment(b)) => same_bytes(a, b),
            (Token::Identifier(a), Token::Identifier(b)) => same_bytes(a, b),
            (Token::LineFeed(a), Token::LineFeed(b)) => {
                assert(seq![*a] == seq![*b] ==> seq![*a][0] == seq![*b][0]);
                *a == *b
            },
            (Token::Ignore(a), Token::Ignore(b)) => {
                assert(seq![*a] == seq![*b] ==> seq![*a][0] == seq![*b][0]);
                *a == *b
            },
            (Token::Space, Token::Space) => true,
            (Token::Comma, Token::Comma) => true,
            (Token::LP, Token::LP) => true,
            (Token::RP, Token::RP) => true,
            (Token::SemiColon, Token::SemiColon) => true,
            (Token::Dot, Token::Dot) => true,
            (Token::EOF, Token::EOF) => true,
            _ => false,
        }
    }

    /// The class of this token.
    pub fn kind(&self) -> (k: TokenKind)
        ensures
            k == self@.kind,
    {
        match self {
            Token::String(_) => TokenKind::String,
            Token::Keyword(_) => TokenKind::Keyword,
            Token::Comment(_) => TokenKind::Comment,
            Token::InlineComment(_) => TokenKind::InlineComment,
            Token::Identifier(_) => TokenKind::Identifier,
            Token::LineFeed(_) => TokenKind::LineFeed,
            Token::Space => TokenKind::Space,
            Token::Comma => TokenKind::Comma,
            Token::LP => TokenKind::LP,
            Token::RP => TokenKind::RP,
            Token::SemiColon => TokenKind::SemiColon,
            Token::Ignore(_) => TokenKind::Ignore,
            Token::Dot => TokenKind::Dot,
            Token::EOF => TokenKind::EOF,
        }
    }

    /// Whether this token is a keyword that reads `string` when its letters
    /// are put in lower case.
    pub fn keyword(&self, string: &str) -> (r: bool)
        ensures
            r == (self@.kind == TokenKind::Keyword && ascii::lowered(self@.bytes) == string.spec_bytes()),
    {
        match self {
            Token::Keyword(chunk) => {
                let word = string.as_bytes();
                if chunk.len() != word.len() {
                    return false;
                }
                let mut i: usize = 0;
                while i < chunk.len()
                    invariant
                        i <= chunk.len(),
                        chunk.len() == word.len(),
                        self@.kind == TokenKind::Keyword,
                        self@.bytes == chunk@,
                        word@ == string.spec_bytes(),
                        forall|j: int| 0 <= j < i ==> ascii::lower(chunk@[j]) == word@[j],
                    decreases chunk.len() - i,
                {
                    if ascii::to_lower(chunk[i]) != word[i] {
                        proof {
                            let l = ascii::lowered(chunk@);
                            assert(l[i as int] == ascii::lower(chunk@[i as int]));
                            assert(l[i as int] != string.spec_bytes()[i as int]);
                        }
                        return false;
                    }
                    i += 1;
                }
                assert(ascii::lowered(chunk@) =~= word@);
                true
            },
            _ => false,
        }
    }

    /// The source bytes of this token.
    pub fn value(self) -> (bytes: Vec<u8>)
        ensures
            bytes@ == self@.bytes,
    {
        match self {
            Token::String(chunk) => chunk,
            Token::Keyword(chunk) => chunk,
            Token::Comment(chunk) => chunk,
            Token::InlineComment(chunk) => chunk,
            Token::Identifier(chunk) => chunk,
            Token::Ignore(byte) => vec![byte],
            Token::Comma => vec![ascii::COMMA],
            Token::LP => vec![ascii::LEFT_PAREN],
            Token::RP => vec![ascii::RIGHT_PAREN],
            Token::SemiColon => vec![ascii::SEMICOLON],
            Token::Dot => vec![ascii::DOT],
            Token::Space => vec![ascii::SPACE],
            Token::LineFeed(byte) => vec![byte],
            Token::EOF => vec![],
        }
    }
}

} // verus!
