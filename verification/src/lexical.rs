//! The lexical grammar: which token stands at the front of an input.
use vstd::prelude::*;

use crate::ascii;
use crate::token::TokenKind;
use crate::token::TokenView;
use crate::token_err::ErrorKind;

verus! {

/// A place in the input at which a scan stops.
pub enum Mark {
    /// The given quote, where no escape covers it.
    Quote(u8),
    /// The `*` of a `*/`.
    CommentEnd,
    /// The given byte.
    Byte(u8),
    /// A byte that is no ASCII letter.
    NonAlpha,
    /// A byte that is no ASCII digit.
    NonDigit,
}

/// Whether an escape covers the byte at index `i` of `s`, where a string
/// opens at the front of `s`: a backslash stands right before the byte, behind
/// the opening quote, and no escape covers that backslash. So a backslash
/// escapes the byte behind it, whatever that is, and a backslash that is
/// escaped escapes nothing.
pub open spec fn escaped(s: Seq<u8>, i: int) -> bool
    decreases i,
{
    if i <= 1 {
        false
    } else {
        s[i - 1] == ascii::BACKSLASH && !escaped(s, i - 1)
    }
}

/// Whether `mark` holds at index `i` of `s`.
pub open spec fn at_mark(s: Seq<u8>, i: int, mark: Mark) -> bool {
    &&& 0 <= i < s.len()
    &&& match mark {
        Mark::Quote(q) => i >= 1 && s[i] == q && !escaped(s, i),
        Mark::CommentEnd => s[i] == ascii::STAR && i + 1 < s.len() && s[i + 1] == ascii::SLASH,
        Mark::Byte(b) => s[i] == b,
        Mark::NonAlpha => !ascii::is_alpha(s[i]),
        Mark::NonDigit => !ascii::is_digit(s[i]),
    }
}

/// The first index of `s`, at or after `from`, at which `mark` holds.
pub open spec fn find(s: Seq<u8>, from: int, mark: Mark) -> Option<int>
    decreases s.len() - from,
{
    if from < 0 || from >= s.len() {
        None
    } else if at_mark(s, from, mark) {
        Some(from)
    } else {
        find(s, from + 1, mark)
    }
}

/// What `find` returns is the least index at which the mark holds, and it
/// returns nothing only where the mark holds nowhere.
pub proof fn lemma_find(s: Seq<u8>, from: int, mark: Mark)
    requires
        0 <= from,
    ensures
        match find(s, from, mark) {
            Some(i) => from <= i < s.len() && at_mark(s, i, mark) && forall|j: int|
                from <= j < i ==> !at_mark(s, j, mark),
            None => forall|j: int| from <= j ==> !at_mark(s, j, mark),
        },
    decreases s.len() - from,
{
    if from < s.len() && !at_mark(s, from, mark) {
        lemma_find(s, from + 1, mark);
    }
}

/// The token at the front of `s`: its class and the number of bytes it
/// spans, or the error that the input runs into.
pub open spec fn lex(s: Seq<u8>) -> Result<(TokenKind, int), ErrorKind> {
    if s.len() == 0 {
        Ok((TokenKind::EOF, 0int))
    } else if s[0] == ascii::QUOTE || s[0] == ascii::DOUBLE_QUOTE {
        match find(s, 1, Mark::Quote(s[0])) {
            Some(i) => Ok((TokenKind::String, i + 1)),
            None => Err(ErrorKind::UnclosedString),
        }
    } else if s[0] == ascii::SLASH {
        if s.len() > 1 && s[1] == ascii::STAR {
            match find(s, 2, Mark::CommentEnd) {
                Some(i) => Ok((TokenKind::Comment, i + 2)),
                None => Err(ErrorKind::IncompleteComment),
            }
        } else {
            Ok((TokenKind::Ignore, 1int))
        }
    } else if ascii::is_digit(s[0]) {
        match find(s, 0, Mark::NonDigit) {
            Some(i) => Ok((TokenKind::String, i)),
            None => Ok((TokenKind::String, s.len() as int)),
        }
    } else if s[0] == ascii::MINUS {
        if s.len() > 1 && s[1] == ascii::MINUS {
            match find(s, 0, Mark::Byte(ascii::LINE_FEED)) {
                Some(i) => Ok((TokenKind::InlineComment, i + 1)),
                None => Ok((TokenKind::InlineComment, s.len() as int)),
            }
        } else {
            Ok((TokenKind::Ignore, 1int))
        }
    } else if ascii::is_alpha(s[0]) {
        match find(s, 0, Mark::NonAlpha) {
            Some(i) => Ok((TokenKind::Keyword, i)),
            None => Err(ErrorKind::UnterminatedKeyword),
        }
    } else if s[0] == ascii::BACKTICK {
        match find(s.skip(1), 0, Mark::Byte(ascii::BACKTICK)) {
            Some(i) => Ok((TokenKind::Identifier, i + 2)),
            None => Err(ErrorKind::UnexpectedEnd),
        }
    } else if s[0] == ascii::DOT {
        Ok((TokenKind::Dot, 1int))
    } else if s[0] == ascii::LEFT_PAREN {
        Ok((TokenKind::LP, 1int))
    } else if s[0] == ascii::RIGHT_PAREN {
        Ok((TokenKind::RP, 1int))
    } else if s[0] == ascii::SEMICOLON {
        Ok((TokenKind::SemiColon, 1int))
    } else if s[0] == ascii::COMMA {
        Ok((TokenKind::Comma, 1int))
    } else if s[0] == ascii::SPACE {
        Ok((TokenKind::Space, 1int))
    } else if s[0] == ascii::CARRIAGE_RETURN || s[0] == ascii::TAB || s[0] == ascii::LINE_FEED {
        Ok((TokenKind::LineFeed, 1int))
    } else {
        Ok((TokenKind::Ignore, 1int))
    }
}

/// A token spans at least one byte, unless it is the end of the input, and
/// never more than the input holds.
pub proof fn lemma_lex_len(s: Seq<u8>)
    ensures
        lex(s) matches Ok((kind, len)) ==> 0 <= len <= s.len() && (len == 0 <==> kind
            == TokenKind::EOF) && (kind == TokenKind::EOF <==> s.len() == 0),
{
    if s.len() > 0 {
        lemma_find(s, 1, Mark::Quote(s[0]));
        lemma_find(s, 2, Mark::CommentEnd);
        lemma_find(s, 0, Mark::NonDigit);
        lemma_find(s, 0, Mark::Byte(ascii::LINE_FEED));
        lemma_find(s, 0, Mark::NonAlpha);
        lemma_find(s.skip(1), 0, Mark::Byte(ascii::BACKTICK));
    }
}

/// The tokens of a whole input, front to back, without the closing
/// [`TokenKind::EOF`]; or the first error that the input runs into.
pub open spec fn tokens(s: Seq<u8>) -> Result<Seq<TokenView>, ErrorKind>
    decreases s.len(),
{
    match lex(s) {
        Err(e) => Err(e),
        Ok((kind, len)) => if kind == TokenKind::EOF {
            Ok(Seq::empty())
        } else {
            proof {
                lemma_lex_len(s);
            }
            match tokens(s.skip(len)) {
                Err(e) => Err(e),
                Ok(others) => Ok(seq![TokenView { kind, bytes: s.take(len) }] + others),
            }
        },
    }
}

/// The tokens at the front of `s`, up to its end or the first error: the
/// tokens that are read before the run is over.
pub open spec fn leading(s: Seq<u8>) -> Seq<TokenView>
    decreases s.len(),
{
    match lex(s) {
        Err(_) => Seq::empty(),
        Ok((kind, len)) => if kind == TokenKind::EOF {
            Seq::empty()
        } else {
            proof {
                lemma_lex_len(s);
            }
            seq![TokenView { kind, bytes: s.take(len) }] + leading(s.skip(len))
        },
    }
}

/// The bytes of `tokens`, one token after the other.
pub open spec fn spelled(tokens: Seq<TokenView>) -> Seq<u8>
    decreases tokens.len(),
{
    if tokens.len() == 0 {
        Seq::empty()
    } else {
        tokens[0].bytes + spelled(tokens.skip(1))
    }
}

/// Tokenizing loses nothing: the bytes of the tokens of an input, put
/// together in order, are the input.
pub proof fn lemma_tokens_round_trip(s: Seq<u8>)
    requires
        tokens(s) is Ok,
    ensures
        spelled(tokens(s)->Ok_0) == s,
    decreases s.len(),
{
    lemma_lex_len(s);
    let (kind, len) = lex(s)->Ok_0;
    if kind == TokenKind::EOF {
        assert(s =~= Seq::<u8>::empty());
    } else {
        let others = tokens(s.skip(len))->Ok_0;
        let all = seq![TokenView { kind, bytes: s.take(len) }] + others;
        lemma_tokens_round_trip(s.skip(len));
        assert(all.skip(1) =~= others);
        assert(s.take(len) + s.skip(len) =~= s);
    }
}

/// The tokens that are read from an input are all of its tokens, where it
/// holds no error; and their bytes, put together in order, are the front of
/// the input.
pub proof fn lemma_leading(s: Seq<u8>)
    ensures
        tokens(s) matches Ok(all) ==> leading(s) == all,
        spelled(leading(s)).len() <= s.len(),
        spelled(leading(s)) == s.take(spelled(leading(s)).len() as int),
    decreases s.len(),
{
    lemma_lex_len(s);
    if lex(s) is Ok && lex(s)->Ok_0.0 != TokenKind::EOF {
        let (kind, len) = lex(s)->Ok_0;
        let others = leading(s.skip(len));
        lemma_leading(s.skip(len));
        assert((seq![TokenView { kind, bytes: s.take(len) }] + others).skip(1) =~= others);
        let m = spelled(others).len() as int;
        assert(s.take(len) + s.skip(len).take(m) =~= s.take(len + m));
    } else {
        assert(spelled(leading(s)) =~= s.take(0));
    }
}

} // verus!
