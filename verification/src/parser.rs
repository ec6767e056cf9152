//! The parser: groups tokens into statement units.
use vstd::prelude::*;

use crate::ascii;
use crate::delimit;
use crate::lexical;
use crate::source::ByteSource;
use crate::syntax;
use crate::syntax::Unit;
use crate::syntax::UnitKind;
use crate::token::Token;
use crate::token::TokenKind;
use crate::token_err::ErrorKind;
use crate::token_err::TokenErr;
use crate::tokenizer::Tokenizer;

verus! {

/// A statement unit: the grain in which a dump is cut.
#[derive(Debug, PartialEq)]
pub enum TokenStream {
    /// An `INSERT` statement through the `,` or `;` behind its first row,
    /// and the bytes that open the statement again in a new file.
    Insert(Vec<u8>, Vec<u8>),
    /// A further row of an `INSERT`, through its `,` or `;`.
    ValuesTuple(Vec<u8>),
    /// Any other statement, through its first `;` outside parentheses.
    Block(Vec<u8>),
    /// One comment.
    Comment(Vec<u8>),
    /// One blank byte or a `;` by itself.
    SpaceOrLineFeed(Vec<u8>),
    /// The end of the input.
    End,
}

impl View for TokenStream {
    type V = Unit;

    open spec fn view(&self) -> Unit {
        match *self {
            TokenStream::Insert(bytes, prefix) => Unit {
                kind: UnitKind::Insert,
                bytes: bytes@,
                prefix: prefix@,
            },
            TokenStream::ValuesTuple(bytes) => Unit {
                kind: UnitKind::ValuesTuple,
                bytes: bytes@,
                prefix: Seq::empty(),
            },
            TokenStream::Block(bytes) => Unit {
                kind: UnitKind::Block,
                bytes: bytes@,
                prefix: Seq::empty(),
            },
            TokenStream::Comment(bytes) => Unit {
                kind: UnitKind::Comment,
                bytes: bytes@,
                prefix: Seq::empty(),
            },
            TokenStream::SpaceOrLineFeed(bytes) => Unit {
                kind: UnitKind::SpaceOrLineFeed,
                bytes: bytes@,
                prefix: Seq::empty(),
            },
            TokenStream::End => Unit {
                kind: UnitKind::End,
                bytes: Seq::empty(),
                prefix: Seq::empty(),
            },
        }
    }
}

impl TokenStream {
    /// The number of source bytes of this unit.
    pub fn size(&self) -> (n: usize)
        ensures
            n == self@.bytes.len(),
    {
        match self {
            TokenStream::Insert(bytes, _) => bytes.len(),
            TokenStream::ValuesTuple(bytes) => bytes.len(),
            TokenStream::Block(bytes) => bytes.len(),
            TokenStream::Comment(bytes) => bytes.len(),
            TokenStream::SpaceOrLineFeed(bytes) => bytes.len(),
            TokenStream::End => 0,
        }
    }

    /// Whether this unit is the end of the input.
    pub fn is_end(&self) -> (r: bool)
        ensures
            r == (self@.kind == UnitKind::End),
    {
        match self {
            TokenStream::End => true,
            _ => false,
        }
    }

    /// Whether this unit ends by itself, so that it reads the same whatever
    /// follows it.
    pub fn delimited(&self) -> (r: bool)
        ensures
            r == delimit::delimited(self@),
    {
        match self {
            TokenStream::Comment(bytes) => bytes.len() > 0 && (bytes[0] != ascii::MINUS
                || bytes[bytes.len() - 1] == ascii::LINE_FEED),
            TokenStream::End => false,
            _ => true,
        }
    }
}

/// Whether `r` and `rest` are what reading a span of `start` gives, where
/// `span` is the length of the span or the error that the input runs into.
pub open spec fn spanned(
    start: Seq<u8>,
    span: Result<int, ErrorKind>,
    r: Result<Vec<u8>, TokenErr>,
    rest: Seq<u8>,
) -> bool {
    match span {
        Ok(n) => r matches Ok(bytes) && bytes@ == start.take(n) && rest == start.skip(n),
        Err(kind) => r matches Err(e) && e.text@ == kind.message(),
    }
}

/// Whether `r` and `rest` are what reading one statement unit from `start`
/// gives.
pub open spec fn parsed(start: Seq<u8>, r: Result<TokenStream, TokenErr>, rest: Seq<u8>) -> bool {
    match syntax::unit(start) {
        Ok(unit) => r matches Ok(stream) && stream@ == unit && rest == start.skip(
            unit.bytes.len() as int,
        ),
        Err(kind) => r matches Err(e) && e.text@ == kind.message(),
    }
}

/// Taking and skipping in two steps is taking and skipping in one.
pub proof fn lemma_take_skip(s: Seq<u8>, n: int, m: int)
    requires
        0 <= n,
        0 <= m,
        n + m <= s.len(),
    ensures
        s.take(n) + s.skip(n).take(m) == s.take(n + m),
        s.skip(n).skip(m) == s.skip(n + m),
{
    assert(s.take(n) + s.skip(n).take(m) =~= s.take(n + m));
    assert(s.skip(n).skip(m) =~= s.skip(n + m));
}

/// Reads the statement units of an input, front to back.
pub struct Parser<S: ByteSource> {
    tokenizer: Tokenizer<S>,
}

impl<S: ByteSource> Parser<S> {
    /// The input that has not been turned into units yet.
    pub closed spec fn rest(&self) -> Seq<u8> {
        self.tokenizer.rest()
    }

    /// A parser that starts where `tokenizer` stands.
    pub fn new(tokenizer: Tokenizer<S>) -> (parser: Self)
        ensures
            parser.rest() == tokenizer.rest(),
    {
        Self { tokenizer }
    }

    /// Reads through the first token equal to `token`, and fails with
    /// `at_end` where the input ends before one.
    fn read_through(&mut self, token: &Token, at_end: ErrorKind) -> (r: Result<Vec<u8>, TokenErr>)
        ensures
            spanned(
                old(self).rest(),
                syntax::through(old(self).rest(), token@, at_end),
                r,
                final(self).rest(),
            ),
    {
        let ghost start = self.rest();
        let mut collection: Vec<u8> = Vec::new();
        assert(start.take(0) =~= collection@ && start.skip(0) =~= start);
        loop
            invariant_except_break
                collection@.len() <= start.len(),
                collection@ == start.take(collection@.len() as int),
                self.rest() == start.skip(collection@.len() as int),
                syntax::through(start, token@, at_end) == syntax::and_then(
                    collection@.len() as int,
                    syntax::through(self.rest(), token@, at_end),
                ),
            invariant
                start == old(self).rest(),
            ensures
                collection@.len() <= start.len(),
                collection@ == start.take(collection@.len() as int),
                self.rest() == start.skip(collection@.len() as int),
                syntax::through(start, token@, at_end) == Ok::<int, ErrorKind>(
                    collection@.len() as int,
                ),
            decreases start.len() - collection@.len(),
        {
            let ghost n = collection@.len() as int;
            let ghost here = self.rest();
            proof {
                lexical::lemma_lex_len(here);
            }
            let t = match self.tokenizer.token() {
                Ok(t) => t,
                Err(e) => {
                    return Err(e);
                },
            };
            if t.same(&Token::EOF) {
                return at_end.fail();
            }
            let found = t.same(token);
            let mut bytes = t.value();
            proof {
                lemma_take_skip(start, n, bytes@.len() as int);
            }
            collection.append(&mut bytes);
            if found {
                break ;
            }
        }
        Ok(collection)
    }

    /// Reads through the first token equal to `token`.
    pub fn read_while(&mut self, token: &Token) -> (r: Result<Vec<u8>, TokenErr>)
        ensures
            spanned(
                old(self).rest(),
                syntax::through(old(self).rest(), token@, ErrorKind::UnexpectedEnd),
                r,
                final(self).rest(),
            ),
    {
        self.read_through(token, ErrorKind::UnexpectedEnd)
    }

    /// Reads through the first `,` or `;` outside parentheses.
    fn scan_values(&mut self, insert: bool) -> (r: Result<Vec<u8>, TokenErr>)
        ensures
            spanned(
                old(self).rest(),
                syntax::values(old(self).rest(), insert),
                r,
                final(self).rest(),
            ),
    {
        let ghost start = self.rest();
        let mut collection: Vec<u8> = Vec::new();
        assert(start.take(0) =~= collection@ && start.skip(0) =~= start);
        loop
            invariant_except_break
                collection@.len() <= start.len(),
                collection@ == start.take(collection@.len() as int),
                self.rest() == start.skip(collection@.len() as int),
                syntax::values(start, insert) == syntax::and_then(
                    collection@.len() as int,
                    syntax::values(self.rest(), insert),
                ),
            invariant
                start == old(self).rest(),
            ensures
                collection@.len() <= start.len(),
                collection@ == start.take(collection@.len() as int),
                self.rest() == start.skip(collection@.len() as int),
                syntax::values(start, insert) == Ok::<int, ErrorKind>(collection@.len() as int),
            decreases start.len() - collection@.len(),
        {
            let ghost n = collection@.len() as int;
            let ghost here = self.rest();
            proof {
                lexical::lemma_lex_len(here);
            }
            let token = match self.tokenizer.token() {
                Ok(token) => token,
                Err(e) => {
                    return Err(e);
                },
            };
            let kind = token.kind();
            if kind == TokenKind::EOF {
                return if insert {
                    ErrorKind::IncompleteInsert.fail()
                } else {
                    ErrorKind::UnparsableValues.fail()
                };
            }
            let mut bytes = token.value();
            let ghost len = bytes@.len() as int;
            proof {
                lemma_take_skip(start, n, len);
            }
            collection.append(&mut bytes);
            if kind == TokenKind::LP {
                let ghost inner = self.rest();
                let at_end = if insert {
                    ErrorKind::IncompleteInsert
                } else {
                    ErrorKind::UnexpectedEnd
                };
                proof {
                    syntax::lemma_through_len(inner, Token::RP@, at_end);
                }
                let mut group = match self.read_through(&Token::RP, at_end) {
                    Ok(group) => group,
                    Err(e) => {
                        return Err(e);
                    },
                };
                proof {
                    lemma_take_skip(start, n + len, group@.len() as int);
                    lemma_take_skip(here, len, group@.len() as int);
                }
                collection.append(&mut group);
            } else if kind == TokenKind::Comma || kind == TokenKind::SemiColon {
                break ;
            }
        }
        Ok(collection)
    }

    /// Reads what is left of a statement whose first keyword has been read:
    /// through the first `;` outside parentheses.
    pub fn block(&mut self) -> (r: Result<Vec<u8>, TokenErr>)
        ensures
            spanned(old(self).rest(), syntax::block(old(self).rest()), r, final(self).rest()),
    {
        let ghost start = self.rest();
        let mut collection: Vec<u8> = Vec::new();
        assert(start.take(0) =~= collection@ && start.skip(0) =~= start);
        loop
            invariant_except_break
                collection@.len() <= start.len(),
                collection@ == start.take(collection@.len() as int),
                self.rest() == start.skip(collection@.len() as int),
                syntax::block(start) == syntax::and_then(
                    collection@.len() as int,
                    syntax::block(self.rest()),
                ),
            invariant
                start == old(self).rest(),
            ensures
                collection@.len() <= start.len(),
                collection@ == start.take(collection@.len() as int),
                self.rest() == start.skip(collection@.len() as int),
                syntax::block(start) == Ok::<int, ErrorKind>(collection@.len() as int),
            decreases start.len() - collection@.len(),
        {
            let ghost n = collection@.len() as int;
            let ghost here = self.rest();
            proof {
                lexical::lemma_lex_len(here);
            }
            let token = match self.tokenizer.token() {
                Ok(token) => token,
                Err(e) => {
                    return Err(e);
                },
            };
            let kind = token.kind();
            if kind == TokenKind::EOF {
                return ErrorKind::UnexpectedEnd.fail();
            }
            let mut bytes = token.value();
            let ghost len = bytes@.len() as int;
            proof {
                lemma_take_skip(start, n, len);
            }
            collection.append(&mut bytes);
            if kind == TokenKind::LP {
                let ghost inner = self.rest();
                proof {
                    syntax::lemma_through_len(inner, Token::RP@, ErrorKind::UnexpectedEnd);
                }
                let mut group = match self.read_through(&Token::RP, ErrorKind::UnexpectedEnd) {
                    Ok(group) => group,
                    Err(e) => {
                        return Err(e);
                    },
                };
                proof {
                    lemma_take_skip(start, n + len, group@.len() as int);
                    lemma_take_skip(here, len, group@.len() as int);
                }
                collection.append(&mut group);
            } else if kind == TokenKind::SemiColon {
                break ;
            }
        }
        Ok(collection)
    }

    /// Reads the rows of an `INSERT` through the first `,` or `;` outside
    /// parentheses.
    pub fn values(&mut self) -> (r: Result<Vec<u8>, TokenErr>)
        ensures
            spanned(old(self).rest(), syntax::values(old(self).rest(), true), r, final(self).rest()),
    {
        self.scan_values(true)
    }

    /// Reads what is left of a row whose `(` has been read: through the next
    /// `)`, then through the first `,` or `;` outside parentheses.
    pub fn values_tuple(&mut self) -> (r: Result<Vec<u8>, TokenErr>)
        ensures
            spanned(
                old(self).rest(),
                syntax::values_tuple(old(self).rest()),
                r,
                final(self).rest(),
            ),
    {
        let ghost start = self.rest();
        proof {
            syntax::lemma_through_len(start, Token::RP@, ErrorKind::UnexpectedEnd);
        }
        let mut collection = match self.read_through(&Token::RP, ErrorKind::UnexpectedEnd) {
            Ok(group) => group,
            Err(e) => {
                return Err(e);
            },
        };
        let ghost n = collection@.len() as int;
        let ghost here = self.rest();
        proof {
            syntax::lemma_values_len(here, false);
        }
        let mut rows = match self.scan_values(false) {
            Ok(rows) => rows,
            Err(e) => {
                return Err(e);
            },
        };
        proof {
            lemma_take_skip(start, n, rows@.len() as int);
        }
        collection.append(&mut rows);
        Ok(collection)
    }

    /// Reads what is left of an `INSERT` statement whose keyword `INSERT`,
    /// held in `token`, has been read. Returns the statement through the `,`
    /// or `;` behind its first row, and the statement through `VALUES` with a
    /// space behind it.
    fn insert(&mut self, token: Vec<u8>) -> (r: Result<(Vec<u8>, Vec<u8>), TokenErr>)
        ensures
            match syntax::insert(old(self).rest()) {
                Ok((head, all)) => r matches Ok((bytes, prefix)) && bytes@ == token@ + old(
                    self,
                ).rest().take(all) && prefix@ == (token@ + old(self).rest().take(head)).push(
                    ascii::SPACE,
                ) && final(self).rest() == old(self).rest().skip(all),
                Err(kind) => r matches Err(e) && e.text@ == kind.message(),
            },
    {
        let ghost start = self.rest();
        let ghost n0 = token@.len() as int;
        let mut collection = token;
        assert(start.take(0) =~= Seq::<u8>::empty() && start.skip(0) =~= start);
        assert(collection@ =~= token@ + start.take(0));
        loop
            invariant_except_break
                n0 <= collection@.len() <= n0 + start.len(),
                collection@ == token@ + start.take(collection@.len() - n0),
                self.rest() == start.skip(collection@.len() - n0),
                syntax::insert_head(start) == syntax::and_then(
                    collection@.len() - n0,
                    syntax::insert_head(self.rest()),
                ),
            invariant
                start == old(self).rest(),
                n0 == token@.len(),
            ensures
                n0 <= collection@.len() <= n0 + start.len(),
                collection@ == token@ + start.take(collection@.len() - n0),
                self.rest() == start.skip(collection@.len() - n0),
                syntax::insert_head(start) == Ok::<int, ErrorKind>(collection@.len() - n0),
            decreases n0 + start.len() - collection@.len(),
        {
            let ghost n = collection@.len() - n0;
            let ghost here = self.rest();
            proof {
                lexical::lemma_lex_len(here);
            }
            let next = match self.tokenizer.token() {
                Ok(next) => next,
                Err(e) => {
                    return Err(e);
                },
            };
            if next.same(&Token::EOF) {
                return ErrorKind::IncompleteInsert.fail();
            }
            let found = next.keyword("values");
            let mut bytes = next.value();
            proof {
                lemma_take_skip(start, n, bytes@.len() as int);
                assert(collection@ + bytes@ =~= token@ + (start.take(n) + bytes@));
            }
            collection.append(&mut bytes);
            if found {
                break ;
            }
        }
        let ghost head = collection@.len() - n0;
        let mut insert_stmt = collection.clone();
        insert_stmt.push(ascii::SPACE);
        let ghost here = self.rest();
        proof {
            syntax::lemma_values_len(here, true);
        }
        let mut rows = match self.values() {
            Ok(rows) => rows,
            Err(e) => {
                return Err(e);
            },
        };
        proof {
            lemma_take_skip(start, head, rows@.len() as int);
            assert(collection@ + rows@ =~= token@ + (start.take(head) + rows@));
        }
        collection.append(&mut rows);
        Ok((collection, insert_stmt))
    }

    /// Reads the next statement unit. At the end of the input the unit is
    /// [`TokenStream::End`], however often it is asked for.
    pub fn token_stream(&mut self) -> (r: Result<TokenStream, TokenErr>)
        ensures
            parsed(old(self).rest(), r, final(self).rest()),
            r matches Ok(stream) ==> old(self).rest() == stream@.bytes + final(self).rest(),
    {
        let ghost start = self.rest();
        let r = self.read_unit();
        proof {
            syntax::lemma_unit_len(start);
            if let Ok(unit) = syntax::unit(start) {
                let n = unit.bytes.len() as int;
                assert(start =~= start.take(n) + start.skip(n));
            }
        }
        r
    }

    /// Reads the first token of the next unit and, by its class, what is
    /// left of the unit.
    fn read_unit(&mut self) -> (r: Result<TokenStream, TokenErr>)
        ensures
            parsed(old(self).rest(), r, final(self).rest()),
    {
        let ghost start = self.rest();
        proof {
            lexical::lemma_lex_len(start);
            assert(start.skip(0) =~= start);
        }
        let token = match self.tokenizer.token() {
            Ok(token) => token,
            Err(e) => {
                return Err(e);
            },
        };
        let ghost len = token@.bytes.len() as int;
        let ghost here = self.rest();
        match token.kind() {
            TokenKind::EOF => Ok(TokenStream::End),
            TokenKind::Keyword => {
                if token.keyword("insert") {
                    proof {
                        syntax::lemma_insert_head_len(here);
                        if let Ok(head) = syntax::insert_head(here) {
                            syntax::lemma_values_len(here.skip(head), true);
                        }
                    }
                    let (insert, insert_stmt) = match self.insert(token.value()) {
                        Ok(pair) => pair,
                        Err(e) => {
                            return Err(e);
                        },
                    };
                    proof {
                        let (head, all) = syntax::insert(here)->Ok_0;
                        lemma_take_skip(start, len, all);
                        lemma_take_skip(start, len, head);
                    }
                    Ok(TokenStream::Insert(insert, insert_stmt))
                } else {
                    proof {
                        syntax::lemma_block_len(here);
                    }
                    let mut output = token.value();
                    let mut val = match self.block() {
                        Ok(val) => val,
                        Err(e) => {
                            return Err(e);
                        },
                    };
                    proof {
                        lemma_take_skip(start, len, val@.len() as int);
                    }
                    output.append(&mut val);
                    Ok(TokenStream::Block(output))
                }
            },
            TokenKind::LP => {
                proof {
                    syntax::lemma_through_len(here, syntax::right_paren(), ErrorKind::UnexpectedEnd);
                    if let Ok(group) = syntax::through(
                        here,
                        syntax::right_paren(),
                        ErrorKind::UnexpectedEnd,
                    ) {
                        syntax::lemma_values_len(here.skip(group), false);
                    }
                }
                let mut output = token.value();
                let mut val = match self.values_tuple() {
                    Ok(val) => val,
                    Err(e) => {
                        return Err(e);
                    },
                };
                proof {
                    lemma_take_skip(start, len, val@.len() as int);
                }
                output.append(&mut val);
                Ok(TokenStream::ValuesTuple(output))
            },
            TokenKind::Comment | TokenKind::InlineComment => Ok(
                TokenStream::Comment(token.value()),
            ),
            TokenKind::RP | TokenKind::Dot | TokenKind::String | TokenKind::Identifier | TokenKind::Comma | TokenKind::Ignore => ErrorKind::InvalidSql.fail(),
            TokenKind::SemiColon | TokenKind::Space | TokenKind::LineFeed => Ok(
                TokenStream::SpaceOrLineFeed(token.value()),
            ),
        }
    }
}

} // verus!
