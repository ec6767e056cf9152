//! The lexer: reads one token at a time from a reader.
use vstd::prelude::*;

use crate::ascii;
use crate::lexical;
use crate::lexical::Mark;
use crate::reader::Reader;
use crate::source::ByteSource;
use crate::token::Token;
use crate::token::TokenKind;
use crate::token::TokenView;
use crate::token_err::ErrorKind;
use crate::token_err::TokenErr;

verus! {

/// Whether `r` and `rest` are what reading one token from `start` gives.
pub open spec fn lexed(start: Seq<u8>, r: Result<Token, TokenErr>, rest: Seq<u8>) -> bool {
    match lexical::lex(start) {
        Ok((kind, len)) => r matches Ok(token) && token@ == (TokenView {
            kind,
            bytes: start.take(len),
        }) && rest == start.skip(len),
        Err(kind) => r matches Err(e) && e.text@ == kind.message(),
    }
}

/// Reads the tokens of an input, front to back.
pub struct Tokenizer<S: ByteSource> {
    reader: Reader<S>,
}

impl<S: ByteSource> Tokenizer<S> {
    /// The input that has not been turned into tokens yet.
    pub closed spec fn rest(&self) -> Seq<u8> {
        self.reader.rest()
    }

    /// A tokenizer that starts where `reader` stands.
    pub fn new(reader: Reader<S>) -> (tokenizer: Self)
        ensures
            tokenizer.rest() == reader.rest(),
    {
        Self { reader }
    }

    /// Reads through the first `item`, or to the end of the input where there
    /// is none; the flag tells which.
    fn read_till(&mut self, item: u8) -> (r: (Vec<u8>, bool))
        ensures
            match lexical::find(old(self).rest(), 0, Mark::Byte(item)) {
                Some(i) => r.1 && r.0@ == old(self).rest().take(i + 1) && final(self).rest() == old(self).rest().skip(i + 1),
                None => !r.1 && r.0@ == old(self).rest() && final(self).rest() == Seq::<u8>::empty(),
            },
    {
        let ghost start = self.rest();
        let mut collection: Vec<u8> = Vec::new();
        let mut found = false;
        assert(start.take(0) =~= collection@ && start.skip(0) =~= start);
        loop
            invariant_except_break
                !found,
                collection@ == start.take(collection@.len() as int),
                collection@.len() <= start.len(),
                self.rest() == start.skip(collection@.len() as int),
                lexical::find(start, 0, Mark::Byte(item)) == lexical::find(
                    start,
                    collection@.len() as int,
                    Mark::Byte(item),
                ),
            ensures
                match lexical::find(start, 0, Mark::Byte(item)) {
                    Some(i) => found && collection@ == start.take(i + 1) && self.rest()
                        == start.skip(i + 1),
                    None => !found && collection@ == start && self.rest() == Seq::<u8>::empty(),
                },
            decreases start.len() - collection@.len(),
        {
            let ghost n = collection@.len() as int;
            match self.reader.get() {
                Some(byte) => {
                    collection.push(byte);
                    proof {
                        assert(collection@ =~= start.take(n + 1));
                        assert(start.skip(n).skip(1) =~= start.skip(n + 1));
                    }
                    if byte == item {
                        found = true;
                        break ;
                    }
                },
                None => {
                    proof {
                        assert(start.take(n) =~= start);
                        assert(start.skip(n) =~= Seq::<u8>::empty());
                    }
                    break ;
                },
            }
        }
        (collection, found)
    }

    /// Reads a run of letters, which has to end before the input does.
    fn keyword(&mut self) -> (r: Result<Vec<u8>, TokenErr>)
        ensures
            match lexical::find(old(self).rest(), 0, Mark::NonAlpha) {
                Some(i) => r matches Ok(word) && word@ == old(self).rest().take(i) && final(self).rest() == old(self).rest().skip(i),
                None => r matches Err(e) && e.text@ == ErrorKind::UnterminatedKeyword.message(),
            },
    {
        let ghost start = self.rest();
        let mut collection: Vec<u8> = Vec::new();
        assert(start.take(0) =~= collection@ && start.skip(0) =~= start);
        loop
            invariant
                start == old(self).rest(),
                collection@ == start.take(collection@.len() as int),
                collection@.len() <= start.len(),
                self.rest() == start.skip(collection@.len() as int),
                lexical::find(start, 0, Mark::NonAlpha) == lexical::find(
                    start,
                    collection@.len() as int,
                    Mark::NonAlpha,
                ),
            ensures
                lexical::find(start, 0, Mark::NonAlpha) == Some(collection@.len() as int),
            decreases start.len() - collection@.len(),
        {
            let ghost n = collection@.len() as int;
            match self.reader.peek() {
                Some(byte) => {
                    if ascii::alphabetic(byte) {
                        self.reader.increment_cursor();
                        collection.push(byte);
                        proof {
                            assert(collection@ =~= start.take(n + 1));
                            assert(start.skip(n).skip(1) =~= start.skip(n + 1));
                        }
                    } else {
                        break ;
                    }
                },
                None => {
                    assert(start.skip(n).len() == 0);
                    return ErrorKind::UnterminatedKeyword.fail();
                },
            }
        }
        Ok(collection)
    }

    /// Reads a run of digits.
    fn number(&mut self) -> (token: Token)
        ensures
            token@.kind == TokenKind::String,
            match lexical::find(old(self).rest(), 0, Mark::NonDigit) {
                Some(i) => token@.bytes == old(self).rest().take(i) && final(self).rest() == old(self).rest().skip(i),
                None => token@.bytes == old(self).rest() && final(self).rest() == Seq::<
                    u8,
                >::empty(),
            },
    {
        let ghost start = self.rest();
        let mut collection: Vec<u8> = Vec::new();
        assert(start.take(0) =~= collection@ && start.skip(0) =~= start);
        loop
            invariant_except_break
                collection@ == start.take(collection@.len() as int),
                collection@.len() <= start.len(),
                self.rest() == start.skip(collection@.len() as int),
                lexical::find(start, 0, Mark::NonDigit) == lexical::find(
                    start,
                    collection@.len() as int,
                    Mark::NonDigit,
                ),
            ensures
                match lexical::find(start, 0, Mark::NonDigit) {
                    Some(i) => collection@ == start.take(i) && self.rest() == start.skip(i),
                    None => collection@ == start && self.rest() == Seq::<u8>::empty(),
                },
            decreases start.len() - collection@.len(),
        {
            let ghost n = collection@.len() as int;
            match self.reader.peek() {
                Some(byte) => {
                    if ascii::numeric(byte) {
                        self.reader.increment_cursor();
                        collection.push(byte);
                        proof {
                            assert(collection@ =~= start.take(n + 1));
                            assert(start.skip(n).skip(1) =~= start.skip(n + 1));
                        }
                    } else {
                        break ;
                    }
                },
                None => {
                    proof {
                        assert(start.take(n) =~= start);
                        assert(start.skip(n) =~= Seq::<u8>::empty());
                    }
                    break ;
                },
            }
        }
        Token::String(collection)
    }

    /// Reads a quoted string: the opening quote at the cursor, then through
    /// the first `closing` that no escape covers. A backslash escapes the byte
    /// behind it.
    fn read_string(&mut self, closing: u8) -> (r: Result<Token, TokenErr>)
        ensures
            match lexical::find(old(self).rest(), 1, Mark::Quote(closing)) {
                Some(i) => r matches Ok(token) && token@ == (TokenView {
                    kind: TokenKind::String,
                    bytes: old(self).rest().take(i + 1),
                }) && final(self).rest() == old(self).rest().skip(i + 1),
                None => r matches Err(e) && e.text@ == ErrorKind::UnclosedString.message(),
            },
    {
        let ghost start = self.rest();
        let mut collection: Vec<u8> = Vec::new();
        match self.reader.get() {
            Some(byte) => {
                collection.push(byte);
            },
            None => {
                return ErrorKind::UnclosedString.fail();
            },
        }
        let mut escaped = false;
        assert(start.take(1) =~= collection@);
        loop
            invariant_except_break
                1 <= collection@.len() <= start.len(),
                collection@ == start.take(collection@.len() as int),
                escaped == lexical::escaped(start, collection@.len() as int),
                self.rest() == start.skip(collection@.len() as int),
                lexical::find(start, 1, Mark::Quote(closing)) == lexical::find(
                    start,
                    collection@.len() as int,
                    Mark::Quote(closing),
                ),
            invariant
                start == old(self).rest(),
            ensures
                collection@.len() >= 2,
                collection@ == start.take(collection@.len() as int),
                self.rest() == start.skip(collection@.len() as int),
                lexical::find(start, 1, Mark::Quote(closing)) == Some(collection@.len() - 1),
            decreases start.len() - collection@.len(),
        {
            let ghost n = collection@.len() as int;
            match self.reader.get() {
                Some(byte) => {
                    collection.push(byte);
                    proof {
                        assert(collection@ =~= start.take(n + 1));
                        assert(start.skip(n).skip(1) =~= start.skip(n + 1));
                    }
                    if byte == closing && !escaped {
                        break ;
                    }
                    escaped = !escaped && byte == ascii::BACKSLASH;
                },
                None => {
                    assert(start.skip(n).len() == 0);
                    return ErrorKind::UnclosedString.fail();
                },
            }
        }
        Ok(Token::String(collection))
    }

    /// Reads a comment: the `/*` at the cursor, then through the first `*/`
    /// behind it.
    fn comment(&mut self) -> (r: Result<Token, TokenErr>)
        ensures
            match lexical::find(old(self).rest(), 2, Mark::CommentEnd) {
                Some(i) => r matches Ok(token) && token@ == (TokenView {
                    kind: TokenKind::Comment,
                    bytes: old(self).rest().take(i + 2),
                }) && final(self).rest() == old(self).rest().skip(i + 2),
                None => r matches Err(e) && e.text@ == ErrorKind::IncompleteComment.message(),
            },
    {
        let ghost start = self.rest();
        let mut collection: Vec<u8> = Vec::new();
        match self.reader.get() {
            Some(slash) => {
                collection.push(slash);
            },
            None => {
                return ErrorKind::IncompleteComment.fail();
            },
        }
        match self.reader.get() {
            Some(star) => {
                collection.push(star);
            },
            None => {
                assert(start.len() == 1);
                return ErrorKind::IncompleteComment.fail();
            },
        }
        proof {
            assert(collection@ =~= start.take(2));
            assert(start.skip(1).skip(1) =~= start.skip(2));
        }
        loop
            invariant_except_break
                2 <= collection@.len() <= start.len(),
                collection@ == start.take(collection@.len() as int),
                self.rest() == start.skip(collection@.len() as int),
                lexical::find(start, 2, Mark::CommentEnd) == lexical::find(
                    start,
                    collection@.len() as int,
                    Mark::CommentEnd,
                ),
            invariant
                start == old(self).rest(),
            ensures
                collection@.len() >= 4,
                collection@ == start.take(collection@.len() as int),
                self.rest() == start.skip(collection@.len() as int),
                lexical::find(start, 2, Mark::CommentEnd) == Some(collection@.len() - 2),
            decreases start.len() - collection@.len(),
        {
            let ghost n = collection@.len() as int;
            match self.reader.get() {
                Some(cr) => {
                    collection.push(cr);
                    proof {
                        assert(collection@ =~= start.take(n + 1));
                        assert(start.skip(n).skip(1) =~= start.skip(n + 1));
                    }
                    if cr == ascii::STAR {
                        let peeked = self.reader.peek();
                        if peeked == Some(ascii::SLASH) {
                            let _ = self.reader.get();
                            collection.push(ascii::SLASH);
                            proof {
                                assert(collection@ =~= start.take(n + 2));
                                assert(start.skip(n + 1).skip(1) =~= start.skip(n + 2));
                            }
                            break ;
                        }
                    }
                },
                None => {
                    assert(start.skip(n).len() == 0);
                    return ErrorKind::IncompleteComment.fail();
                },
            }
        }
        Ok(Token::Comment(collection))
    }

    /// Steps over the one byte that `token` stands for.
    fn singular(&mut self, token: Token) -> (r: Result<Token, TokenErr>)
        ensures
            r == Ok::<Token, TokenErr>(token),
            final(self).rest() == crate::reader::advance(old(self).rest()),
    {
        self.reader.increment_cursor();
        Ok(token)
    }

    /// Reads the next token. At the end of the input the token is
    /// [`Token::EOF`], however often it is asked for.
    pub fn token(&mut self) -> (r: Result<Token, TokenErr>)
        ensures
            lexed(old(self).rest(), r, final(self).rest()),
            r matches Ok(token) ==> old(self).rest() == token@.bytes + final(self).rest(),
    {
        let ghost start = self.rest();
        let r = self.scan();
        proof {
            lexical::lemma_lex_len(start);
            if let Ok((_, len)) = lexical::lex(start) {
                assert(start =~= start.take(len) + start.skip(len));
            }
        }
        r
    }

    /// Looks at the next byte, or the next two, and reads the token that
    /// they open.
    fn scan(&mut self) -> (r: Result<Token, TokenErr>)
        ensures
            lexed(old(self).rest(), r, final(self).rest()),
    {
        let ghost start = self.rest();
        proof {
            if start.len() > 0 {
                lexical::lemma_find(start, 1, Mark::Quote(start[0]));
                lexical::lemma_find(start, 2, Mark::CommentEnd);
                lexical::lemma_find(start, 0, Mark::NonDigit);
                lexical::lemma_find(start, 0, Mark::Byte(ascii::LINE_FEED));
                lexical::lemma_find(start, 0, Mark::NonAlpha);
                assert(start.take(1) =~= seq![start[0]]);
            }
            assert(start.take(0) =~= Seq::<u8>::empty());
            assert(start.skip(0) =~= start);
            assert(start.take(start.len() as int) =~= start);
            assert(start.skip(start.len() as int) =~= Seq::<u8>::empty());
        }
        let byte = match self.reader.peek() {
            Some(byte) => byte,
            None => {
                return Ok(Token::EOF);
            },
        };
        if byte == ascii::DOUBLE_QUOTE || byte == ascii::QUOTE {
            let r = self.read_string(byte);
            r
        } else if byte == ascii::SLASH {
            if self.reader.peek_next() == Some(ascii::STAR) {
                let r = self.comment();
                    r
            } else {
                let r = self.singular(Token::Ignore(byte));
                    r
            }
        } else if ascii::numeric(byte) {
            let r = Ok(self.number());
            r
        } else if byte == ascii::MINUS {
            if self.reader.peek_next() == Some(ascii::MINUS) {
                let (line, _) = self.read_till(ascii::LINE_FEED);
                let r = Ok(Token::InlineComment(line));
                    r
            } else {
                let r = self.singular(Token::Ignore(byte));
                    r
            }
        } else if ascii::alphabetic(byte) {
            let r = match self.keyword() {
                Ok(word) => Ok(Token::Keyword(word)),
                Err(e) => Err(e),
            };
            r
        } else if byte == ascii::BACKTICK {
            self.reader.increment_cursor();
            let mut identifier: Vec<u8> = Vec::new();
            identifier.push(byte);
            let (mut name, closed) = self.read_till(ascii::BACKTICK);
            if !closed {
                return ErrorKind::UnexpectedEnd.fail();
            }
            identifier.append(&mut name);
            proof {
                let i = lexical::find(start.skip(1), 0, Mark::Byte(ascii::BACKTICK))->Some_0;
                lexical::lemma_find(start.skip(1), 0, Mark::Byte(ascii::BACKTICK));
                assert(identifier@ =~= start.take(i + 2));
                assert(start.skip(1).skip(i + 1) =~= start.skip(i + 2));
            }
            let r = Ok(Token::Identifier(identifier));
            r
        } else {
            let r = if byte == ascii::DOT {
                self.singular(Token::Dot)
            } else if byte == ascii::LEFT_PAREN {
                self.singular(Token::LP)
            } else if byte == ascii::RIGHT_PAREN {
                self.singular(Token::RP)
            } else if byte == ascii::SEMICOLON {
                self.singular(Token::SemiColon)
            } else if byte == ascii::COMMA {
                self.singular(Token::Comma)
            } else if byte == ascii::SPACE {
                self.singular(Token::Space)
            } else if byte == ascii::CARRIAGE_RETURN || byte == ascii::TAB || byte
                == ascii::LINE_FEED {
                self.singular(Token::LineFeed(byte))
            } else {
                self.singular(Token::Ignore(byte))
            };
            r
        }
    }
}

} // verus!
