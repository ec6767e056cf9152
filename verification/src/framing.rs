//! Tokens and statement units read the same whatever follows them, as far as
//! they end by themselves.
use vstd::prelude::*;
use vstd::string::StringSliceAdditionalSpecFns;

use crate::ascii;
use crate::lexical;
use crate::lexical::Mark;
use crate::syntax;
use crate::syntax::Unit;
use crate::syntax::UnitKind;
use crate::token::TokenKind;
use crate::token::TokenView;
use crate::token_err::ErrorKind;

verus! {

/// Two inputs with the same first `n` bytes hold the same byte at each of
/// the first `n` places.
pub proof fn lemma_same_bytes(a: Seq<u8>, b: Seq<u8>, n: int)
    requires
        0 <= n <= a.len(),
        n <= b.len(),
        a.take(n) == b.take(n),
    ensures
        forall|j: int| 0 <= j < n ==> a[j] == b[j],
{
    assert forall|j: int| 0 <= j < n implies a[j] == b[j] by {
        assert(a.take(n)[j] == a[j]);
        assert(b.take(n)[j] == b[j]);
    }
}

/// An index at which the mark holds, with none before it, is what `find`
/// returns.
pub proof fn lemma_find_is(s: Seq<u8>, from: int, mark: Mark, i: int)
    requires
        0 <= from <= i,
        lexical::at_mark(s, i, mark),
        forall|j: int| from <= j < i ==> !lexical::at_mark(s, j, mark),
    ensures
        lexical::find(s, from, mark) == Some(i),
    decreases i - from,
{
    if from < i {
        lemma_find_is(s, from + 1, mark, i);
    }
}

/// Where the mark holds nowhere, `find` returns nothing.
pub proof fn lemma_find_none(s: Seq<u8>, from: int, mark: Mark)
    requires
        0 <= from,
        forall|j: int| from <= j < s.len() ==> !lexical::at_mark(s, j, mark),
    ensures
        lexical::find(s, from, mark) is None,
    decreases s.len() - from,
{
    if from < s.len() {
        lemma_find_none(s, from + 1, mark);
    }
}

/// The number of bytes that decide whether the mark holds at an index up to
/// `i`.
pub open spec fn window(mark: Mark, i: int) -> int {
    if mark is CommentEnd {
        i + 2
    } else {
        i + 1
    }
}

/// Whether an escape covers a byte depends only on the input before that
/// byte.
pub proof fn lemma_escaped_agree(a: Seq<u8>, b: Seq<u8>, n: int, i: int)
    requires
        0 <= n <= a.len(),
        n <= b.len(),
        a.take(n) == b.take(n),
        i <= n,
    ensures
        lexical::escaped(a, i) == lexical::escaped(b, i),
    decreases i,
{
    if i > 1 {
        lemma_same_bytes(a, b, n);
        lemma_escaped_agree(a, b, n, i - 1);
    }
}

/// Whether the mark holds at an index depends only on the input up to the
/// end of the window of that index.
pub proof fn lemma_marks_agree(a: Seq<u8>, b: Seq<u8>, mark: Mark, n: int)
    requires
        0 <= n <= a.len(),
        n <= b.len(),
        a.take(n) == b.take(n),
    ensures
        forall|j: int|
            0 <= j && window(mark, j) <= n ==> lexical::at_mark(a, j, mark) == lexical::at_mark(
                b,
                j,
                mark,
            ),
{
    lemma_same_bytes(a, b, n);
    assert forall|j: int| 0 <= j && window(mark, j) <= n implies lexical::at_mark(a, j, mark)
        == lexical::at_mark(b, j, mark) by {
        lemma_escaped_agree(a, b, n, j);
    }
}

/// What `find` returns depends only on the input up to the place it
/// returns.
pub proof fn lemma_find_agree(a: Seq<u8>, b: Seq<u8>, from: int, mark: Mark)
    requires
        0 <= from,
        lexical::find(a, from, mark) matches Some(i) && b.len() >= window(mark, i) && b.take(
            window(mark, i),
        ) == a.take(window(mark, i)),
    ensures
        lexical::find(b, from, mark) == lexical::find(a, from, mark),
{
    let i = lexical::find(a, from, mark)->Some_0;
    lexical::lemma_find(a, from, mark);
    lemma_marks_agree(a, b, mark, window(mark, i));
    assert forall|j: int| from <= j < i implies !lexical::at_mark(b, j, mark) by {
        assert(!lexical::at_mark(a, j, mark));
    }
    lemma_find_is(b, from, mark, i);
}

/// Whether an input `b` that starts with a token of class `kind` and `len`
/// bytes goes on behind it such that the token ends there.
pub open spec fn tail_fits(kind: TokenKind, b: Seq<u8>, len: int) -> bool {
    match kind {
        TokenKind::Keyword => b.len() > len && !ascii::is_alpha(b[len]),
        TokenKind::String => b[0] == ascii::QUOTE || b[0] == ascii::DOUBLE_QUOTE || b.len() == len
            || !ascii::is_digit(b[len]),
        TokenKind::Ignore => if b[0] == ascii::SLASH {
            b.len() == 1 || b[1] != ascii::STAR
        } else if b[0] == ascii::MINUS {
            b.len() == 1 || b[1] != ascii::MINUS
        } else {
            true
        },
        TokenKind::InlineComment => b[len - 1] == ascii::LINE_FEED || b.len() == len,
        TokenKind::EOF => b.len() == 0,
        _ => true,
    }
}

/// A token reads the same at the front of every input that starts with its
/// bytes and goes on such that the token ends there.
pub proof fn lemma_lex_agree(a: Seq<u8>, b: Seq<u8>)
    requires
        lexical::lex(a) matches Ok((kind, len)) && b.len() >= len && b.take(len) == a.take(len)
            && tail_fits(kind, b, len),
    ensures
        lexical::lex(b) == lexical::lex(a),
{
    let (kind, len) = lexical::lex(a)->Ok_0;
    lexical::lemma_lex_len(a);
    if a.len() > 0 {
        lemma_same_bytes(a, b, len);
        let first = a[0];
        assert(b[0] == first);
        if first == ascii::QUOTE || first == ascii::DOUBLE_QUOTE {
            lemma_find_agree(a, b, 1, Mark::Quote(first));
        } else if first == ascii::SLASH {
            if a.len() > 1 && a[1] == ascii::STAR {
                lexical::lemma_find(a, 2, Mark::CommentEnd);
                lemma_find_agree(a, b, 2, Mark::CommentEnd);
            }
        } else if ascii::is_digit(first) {
            lexical::lemma_find(a, 0, Mark::NonDigit);
            lemma_marks_agree(a, b, Mark::NonDigit, len);
            assert forall|j: int| 0 <= j < len implies !lexical::at_mark(
                b,
                j,
                Mark::NonDigit,
            ) by {
                assert(!lexical::at_mark(a, j, Mark::NonDigit));
            }
            if b.len() == len {
                lemma_find_none(b, 0, Mark::NonDigit);
            } else {
                lemma_find_is(b, 0, Mark::NonDigit, len);
            }
        } else if first == ascii::MINUS {
            if a.len() > 1 && a[1] == ascii::MINUS {
                lexical::lemma_find(a, 0, Mark::Byte(ascii::LINE_FEED));
                lemma_marks_agree(a, b, Mark::Byte(ascii::LINE_FEED), len);
                assert forall|j: int| 0 <= j < len - 1 implies !lexical::at_mark(
                    b,
                    j,
                    Mark::Byte(ascii::LINE_FEED),
                ) by {
                    assert(!lexical::at_mark(a, j, Mark::Byte(ascii::LINE_FEED)));
                }
                if b[len - 1] == ascii::LINE_FEED {
                    lemma_find_is(b, 0, Mark::Byte(ascii::LINE_FEED), len - 1);
                } else {
                    lemma_find_none(b, 0, Mark::Byte(ascii::LINE_FEED));
                }
            }
        } else if ascii::is_alpha(first) {
            lexical::lemma_find(a, 0, Mark::NonAlpha);
            lemma_marks_agree(a, b, Mark::NonAlpha, len);
            assert forall|j: int| 0 <= j < len implies !lexical::at_mark(b, j, Mark::NonAlpha) by {
                assert(!lexical::at_mark(a, j, Mark::NonAlpha));
            }
            lemma_find_is(b, 0, Mark::NonAlpha, len);
        } else if first == ascii::BACKTICK {
            lexical::lemma_find(a.skip(1), 0, Mark::Byte(ascii::BACKTICK));
            assert(b.skip(1).take(len - 1) =~= b.take(len).skip(1));
            assert(a.skip(1).take(len - 1) =~= a.take(len).skip(1));
            lemma_find_agree(a.skip(1), b.skip(1), 0, Mark::Byte(ascii::BACKTICK));
        }
    }
}

/// An input goes on behind its first token such that the token ends there.
pub proof fn lemma_lex_tail(a: Seq<u8>)
    ensures
        lexical::lex(a) matches Ok((kind, len)) ==> tail_fits(kind, a, len),
{
    if a.len() > 0 {
        lexical::lemma_find(a, 0, Mark::NonDigit);
        lexical::lemma_find(a, 0, Mark::NonAlpha);
        lexical::lemma_find(a, 0, Mark::Byte(ascii::LINE_FEED));
    }
}

/// Whether `byte` is `,` or `;`.
pub open spec fn is_separator(byte: u8) -> bool {
    byte == ascii::COMMA || byte == ascii::SEMICOLON
}

/// An input that goes on behind a token as another does, or with a `,` or
/// `;`, ends the token as the other does.
pub proof fn lemma_tail_carries(kind: TokenKind, a: Seq<u8>, b: Seq<u8>, len: int)
    requires
        1 <= len < a.len(),
        len < b.len(),
        b.take(len) == a.take(len),
        b[len] == a[len] || is_separator(b[len]),
        tail_fits(kind, a, len),
    ensures
        tail_fits(kind, b, len),
{
    lemma_same_bytes(a, b, len);
}

/// Whether a token of class `kind` ends by itself, whatever follows it.
pub open spec fn ends_alone(kind: TokenKind) -> bool {
    kind == TokenKind::LP || kind == TokenKind::RP || kind == TokenKind::Comma || kind
        == TokenKind::SemiColon || kind == TokenKind::Dot || kind == TokenKind::Space || kind
        == TokenKind::LineFeed || kind == TokenKind::Comment || kind == TokenKind::Identifier
}

/// Two inputs with the same first `n` bytes have the same first bytes up to
/// any place before that, and what lies between two such places is the same in
/// both.
pub proof fn lemma_same_parts(a: Seq<u8>, b: Seq<u8>, n: int, from: int, to: int)
    requires
        0 <= from <= to <= n <= a.len(),
        n <= b.len(),
        a.take(n) == b.take(n),
    ensures
        a.take(to) == b.take(to),
        a.skip(from).take(to - from) == b.skip(from).take(to - from),
{
    lemma_same_bytes(a, b, n);
    assert(a.take(to) =~= b.take(to));
    assert(a.skip(from).take(to - from) =~= b.skip(from).take(to - from));
}

/// A span through a token that ends by itself reads the same at the front
/// of every input that starts with its bytes.
pub proof fn lemma_through_agree(
    a: Seq<u8>,
    b: Seq<u8>,
    stop: TokenView,
    a_end: ErrorKind,
    b_end: ErrorKind,
)
    requires
        ends_alone(stop.kind),
        syntax::through(a, stop, a_end) matches Ok(n) && b.len() >= n && b.take(n) == a.take(n),
    ensures
        syntax::through(b, stop, b_end) == syntax::through(a, stop, a_end),
    decreases a.len(),
{
    let n = syntax::through(a, stop, a_end)->Ok_0;
    let (kind, len) = lexical::lex(a)->Ok_0;
    lexical::lemma_lex_len(a);
    lemma_lex_tail(a);
    syntax::lemma_through_len(a, stop, a_end);
    if kind == stop.kind && a.take(len) == stop.bytes {
        lemma_lex_agree(a, b);
    } else {
        syntax::lemma_through_len(a.skip(len), stop, a_end);
        lemma_same_parts(a, b, n, 0, len);
        lemma_same_parts(a, b, n, len, n);
        lemma_same_bytes(a, b, n);
        lemma_tail_carries(kind, a, b, len);
        lemma_lex_agree(a, b);
        lemma_through_agree(a.skip(len), b.skip(len), stop, a_end, b_end);
    }
}

/// What is left of a statement behind its first keyword reads the same at
/// the front of every input that starts with its bytes.
pub proof fn lemma_block_agree(a: Seq<u8>, b: Seq<u8>)
    requires
        syntax::block(a) matches Ok(n) && b.len() >= n && b.take(n) == a.take(n),
    ensures
        syntax::block(b) == syntax::block(a),
    decreases a.len(),
{
    let n = syntax::block(a)->Ok_0;
    let (kind, len) = lexical::lex(a)->Ok_0;
    let at_end = ErrorKind::UnexpectedEnd;
    lexical::lemma_lex_len(a);
    lemma_lex_tail(a);
    syntax::lemma_block_len(a);
    lemma_same_bytes(a, b, n);
    if kind == TokenKind::SemiColon {
        lemma_lex_agree(a, b);
    } else if kind == TokenKind::LP {
        let group = syntax::through(a.skip(len), syntax::right_paren(), at_end)->Ok_0;
        syntax::lemma_through_len(a.skip(len), syntax::right_paren(), at_end);
        syntax::lemma_block_len(a.skip(len + group));
        lemma_same_parts(a, b, n, 0, len);
        lemma_same_parts(a, b, n, len, len + group);
        lemma_same_parts(a, b, n, len + group, n);
        lemma_lex_agree(a, b);
        lemma_through_agree(a.skip(len), b.skip(len), syntax::right_paren(), at_end, at_end);
        lemma_block_agree(a.skip(len + group), b.skip(len + group));
    } else {
        syntax::lemma_block_len(a.skip(len));
        lemma_same_parts(a, b, n, 0, len);
        lemma_same_parts(a, b, n, len, n);
        lemma_tail_carries(kind, a, b, len);
        lemma_lex_agree(a, b);
        lemma_block_agree(a.skip(len), b.skip(len));
    }
}

/// A row list ends with `,` or `;`.
pub proof fn lemma_values_end(a: Seq<u8>, insert: bool)
    ensures
        syntax::values(a, insert) matches Ok(n) ==> 0 < n <= a.len() && is_separator(a[n - 1]),
    decreases a.len(),
{
    lexical::lemma_lex_len(a);
    syntax::lemma_values_len(a, insert);
    if let Ok((kind, len)) = lexical::lex(a) {
        if kind == TokenKind::LP {
            let after = a.skip(len);
            syntax::lemma_through_len(after, syntax::right_paren(), syntax::group_end(insert));
            if let Ok(group) = syntax::through(
                after,
                syntax::right_paren(),
                syntax::group_end(insert),
            ) {
                lemma_values_end(a.skip(len + group), insert);
                syntax::lemma_values_len(a.skip(len + group), insert);
            }
        } else if kind != TokenKind::EOF && kind != TokenKind::Comma && kind
            != TokenKind::SemiColon {
            lemma_values_end(a.skip(len), insert);
            syntax::lemma_values_len(a.skip(len), insert);
        }
    }
}

/// A row list reads the same at the front of every input that starts with
/// its bytes, also where `,` and `;` change places at its end, and whether or
/// not it belongs to an `INSERT` that is being read.
pub proof fn lemma_values_agree(a: Seq<u8>, b: Seq<u8>, a_insert: bool, b_insert: bool)
    requires
        syntax::values(a, a_insert) matches Ok(n) && b.len() >= n && b.take(n - 1) == a.take(n - 1)
            && is_separator(b[n - 1]),
    ensures
        syntax::values(b, b_insert) == syntax::values(a, a_insert),
    decreases a.len(),
{
    let n = syntax::values(a, a_insert)->Ok_0;
    let (kind, len) = lexical::lex(a)->Ok_0;
    lexical::lemma_lex_len(a);
    lemma_lex_tail(a);
    lemma_values_end(a, a_insert);
    if kind == TokenKind::Comma || kind == TokenKind::SemiColon {
    } else if kind == TokenKind::LP {
        let a_end = syntax::group_end(a_insert);
        let b_end = syntax::group_end(b_insert);
        let group = syntax::through(a.skip(len), syntax::right_paren(), a_end)->Ok_0;
        syntax::lemma_through_len(a.skip(len), syntax::right_paren(), a_end);
        lemma_values_end(a.skip(len + group), a_insert);
        lemma_same_bytes(a, b, n - 1);
        lemma_same_parts(a, b, n - 1, len, len + group);
        lemma_same_parts(a, b, n - 1, len + group, n - 1);
        lemma_through_agree(a.skip(len), b.skip(len), syntax::right_paren(), a_end, b_end);
        lemma_values_agree(a.skip(len + group), b.skip(len + group), a_insert, b_insert);
    } else {
        lemma_values_end(a.skip(len), a_insert);
        lemma_same_bytes(a, b, n - 1);
        lemma_same_parts(a, b, n - 1, 0, len);
        lemma_same_parts(a, b, n - 1, len, n - 1);
        lemma_tail_carries(kind, a, b, len);
        lemma_lex_agree(a, b);
        lemma_values_agree(a.skip(len), b.skip(len), a_insert, b_insert);
    }
}

/// The head of an `INSERT` reads the same at the front of every input that
/// starts with its bytes and has no letter behind them.
pub proof fn lemma_insert_head_agree(a: Seq<u8>, b: Seq<u8>)
    requires
        syntax::insert_head(a) matches Ok(n) && b.len() > n && b.take(n) == a.take(n)
            && !ascii::is_alpha(b[n]),
    ensures
        syntax::insert_head(b) == syntax::insert_head(a),
    decreases a.len(),
{
    let n = syntax::insert_head(a)->Ok_0;
    let (kind, len) = lexical::lex(a)->Ok_0;
    lexical::lemma_lex_len(a);
    lemma_lex_tail(a);
    syntax::lemma_insert_head_len(a);
    if kind == TokenKind::Keyword && syntax::reads(a, len, "values") {
        lemma_lex_agree(a, b);
    } else {
        syntax::lemma_insert_head_len(a.skip(len));
        lemma_same_parts(a, b, n, 0, len);
        lemma_same_parts(a, b, n, len, n);
        lemma_same_bytes(a, b, n);
        lemma_tail_carries(kind, a, b, len);
        lemma_lex_agree(a, b);
        lemma_insert_head_agree(a.skip(len), b.skip(len));
    }
}

} // verus!
