//! Statement units read the same whatever follows them, as far as they end
//! by themselves.
use vstd::prelude::*;
use vstd::string::StringSliceAdditionalSpecFns;

use crate::ascii;
use crate::framing;
use crate::lexical;
use crate::lexical::Mark;
use crate::syntax;
use crate::syntax::Unit;
use crate::syntax::UnitKind;
use crate::token::TokenKind;
use crate::token_err::ErrorKind;

verus! {

/// Behind the head of an `INSERT` stands a byte that is no letter.
pub proof fn lemma_insert_head_tail(a: Seq<u8>)
    ensures
        syntax::insert_head(a) matches Ok(n) ==> 0 < n < a.len() && !ascii::is_alpha(a[n]),
    decreases a.len(),
{
    lexical::lemma_lex_len(a);
    framing::lemma_lex_tail(a);
    syntax::lemma_insert_head_len(a);
    if let Ok((kind, len)) = lexical::lex(a) {
        if kind != TokenKind::EOF && !(kind == TokenKind::Keyword && syntax::reads(
            a,
            len,
            "values",
        )) {
            lemma_insert_head_tail(a.skip(len));
            syntax::lemma_insert_head_len(a.skip(len));
        }
    }
}

/// Whether a unit ends by itself, whatever follows it. Every unit does but
/// the end of the input and a `--` comment that the end of the input cuts
/// short.
pub open spec fn delimited(u: Unit) -> bool {
    &&& u.kind != UnitKind::End
    &&& u.kind == UnitKind::Comment ==> u.bytes.len() > 0 && (u.bytes[0] == ascii::MINUS
        ==> u.bytes.last() == ascii::LINE_FEED)
}

/// An `INSERT` and a row end with `,` or `;`, and hold more than that.
pub proof fn lemma_unit_end(a: Seq<u8>)
    ensures
        syntax::unit(a) matches Ok(u) ==> (u.kind == UnitKind::Insert || u.kind
            == UnitKind::ValuesTuple) ==> u.bytes.len() >= 2 && framing::is_separator(u.bytes.last()),
{
    lexical::lemma_lex_len(a);
    if let Ok((kind, len)) = lexical::lex(a) {
        let rest = a.skip(len);
        syntax::lemma_insert_head_len(rest);
        if let Ok(head) = syntax::insert_head(rest) {
            framing::lemma_values_end(rest.skip(head), true);
        }
        syntax::lemma_through_len(rest, syntax::right_paren(), ErrorKind::UnexpectedEnd);
        if let Ok(group) = syntax::through(rest, syntax::right_paren(), ErrorKind::UnexpectedEnd) {
            framing::lemma_values_end(rest.skip(group), false);
        }
    }
}

/// A unit that does not end by itself is all of the input it is read from.
pub proof fn lemma_unit_cut_short(a: Seq<u8>)
    ensures
        syntax::unit(a) matches Ok(u) ==> !delimited(u) ==> u.bytes == a,
{
    lexical::lemma_lex_len(a);
    syntax::lemma_unit_len(a);
    if let Ok(u) = syntax::unit(a) {
        if u.kind == UnitKind::Comment && !delimited(u) {
            lexical::lemma_find(a, 0, Mark::Byte(ascii::LINE_FEED));
            assert(a.take(a.len() as int) =~= a);
        } else if u.kind == UnitKind::End {
            assert(a =~= Seq::<u8>::empty());
        }
    }
}

/// An `INSERT` and a row read the same at the front of every input that
/// starts with their bytes, also where `,` and `;` change places at their end.
pub proof fn lemma_unit_closed(a: Seq<u8>, b: Seq<u8>)
    requires
        syntax::unit(a) matches Ok(u) && (u.kind == UnitKind::Insert || u.kind
            == UnitKind::ValuesTuple) && b.len() >= u.bytes.len() && b.take(u.bytes.len() - 1)
            == a.take(u.bytes.len() - 1) && framing::is_separator(b[u.bytes.len() - 1]),
    ensures
        syntax::unit(b) == Ok::<Unit, ErrorKind>(
            Unit {
                kind: syntax::unit(a)->Ok_0.kind,
                bytes: b.take(syntax::unit(a)->Ok_0.bytes.len() as int),
                prefix: syntax::unit(a)->Ok_0.prefix,
            },
        ),
{
    let u = syntax::unit(a)->Ok_0;
    let n = u.bytes.len() as int;
    let (kind, len) = lexical::lex(a)->Ok_0;
    lexical::lemma_lex_len(a);
    framing::lemma_lex_tail(a);
    syntax::lemma_unit_len(a);
    lemma_unit_end(a);
    framing::lemma_same_bytes(a, b, n - 1);
    let a_rest = a.skip(len);
    let b_rest = b.skip(len);
    if kind == TokenKind::Keyword {
        let (head, all) = syntax::insert(a_rest)->Ok_0;
        syntax::lemma_insert_head_len(a_rest);
        lemma_insert_head_tail(a_rest);
        framing::lemma_values_end(a_rest.skip(head), true);
        framing::lemma_same_parts(a, b, n - 1, 0, len);
        framing::lemma_same_parts(a, b, n - 1, len, len + head);
        framing::lemma_same_parts(a, b, n - 1, len + head, n - 1);
        framing::lemma_tail_carries(kind, a, b, len);
        framing::lemma_lex_agree(a, b);
        framing::lemma_insert_head_agree(a_rest, b_rest);
        assert(a_rest.skip(head) =~= a.skip(len + head));
        assert(b_rest.skip(head) =~= b.skip(len + head));
        framing::lemma_values_agree(a_rest.skip(head), b_rest.skip(head), true, true);
        framing::lemma_same_parts(a, b, n - 1, 0, len + head);
    } else {
        let group = syntax::through(a_rest, syntax::right_paren(), ErrorKind::UnexpectedEnd)->Ok_0;
        syntax::lemma_through_len(a_rest, syntax::right_paren(), ErrorKind::UnexpectedEnd);
        framing::lemma_values_end(a_rest.skip(group), false);
        framing::lemma_same_parts(a, b, n - 1, 0, len);
        framing::lemma_lex_agree(a, b);
        framing::lemma_same_parts(a, b, n - 1, len, len + group);
        framing::lemma_same_parts(a, b, n - 1, len + group, n - 1);
        framing::lemma_through_agree(
            a_rest,
            b_rest,
            syntax::right_paren(),
            ErrorKind::UnexpectedEnd,
            ErrorKind::UnexpectedEnd,
        );
        assert(a_rest.skip(group) =~= a.skip(len + group));
        assert(b_rest.skip(group) =~= b.skip(len + group));
        framing::lemma_values_agree(a_rest.skip(group), b_rest.skip(group), false, false);
    }
}

/// A unit that ends by itself reads the same at the front of every input
/// that starts with its bytes.
pub proof fn lemma_unit_agree(a: Seq<u8>, b: Seq<u8>)
    requires
        syntax::unit(a) matches Ok(u) && delimited(u) && b.len() >= u.bytes.len() && b.take(
            u.bytes.len() as int,
        ) == a.take(u.bytes.len() as int),
    ensures
        syntax::unit(b) == syntax::unit(a),
{
    let u = syntax::unit(a)->Ok_0;
    let n = u.bytes.len() as int;
    let (kind, len) = lexical::lex(a)->Ok_0;
    lexical::lemma_lex_len(a);
    framing::lemma_lex_tail(a);
    syntax::lemma_unit_len(a);
    framing::lemma_same_bytes(a, b, n);
    if u.kind == UnitKind::Insert || u.kind == UnitKind::ValuesTuple {
        lemma_unit_end(a);
        framing::lemma_same_parts(a, b, n, 0, n - 1);
        lemma_unit_closed(a, b);
    } else if u.kind == UnitKind::Block {
        let a_rest = a.skip(len);
        syntax::lemma_block_len(a_rest);
        framing::lemma_same_parts(a, b, n, 0, len);
        framing::lemma_same_parts(a, b, n, len, n);
        framing::lemma_tail_carries(kind, a, b, len);
        framing::lemma_lex_agree(a, b);
        framing::lemma_block_agree(a_rest, b.skip(len));
    } else {
        framing::lemma_lex_agree(a, b);
    }
}

/// A row read by itself is a row list of one row.
pub proof fn lemma_row_values(row: Seq<u8>)
    requires
        syntax::unit(row) matches Ok(t) && t.kind == UnitKind::ValuesTuple,
    ensures
        syntax::values(row, false) == Ok::<int, ErrorKind>(
            syntax::unit(row)->Ok_0.bytes.len() as int,
        ),
{
    let m = syntax::unit(row)->Ok_0.bytes.len() as int;
    lexical::lemma_lex_len(row);
    syntax::lemma_unit_len(row);
    let group = syntax::through(row.skip(1), syntax::right_paren(), ErrorKind::UnexpectedEnd)->Ok_0;
    syntax::lemma_through_len(row.skip(1), syntax::right_paren(), ErrorKind::UnexpectedEnd);
    assert(row.skip(1).skip(group) =~= row.skip(1 + group));
    syntax::lemma_values_len(row.skip(1 + group), false);
    let tail = syntax::values(row.skip(1 + group), false)->Ok_0;
    assert(syntax::values_tuple(row.skip(1)) == Ok::<int, ErrorKind>(group + tail));
    assert(m == 1 + group + tail);
}

/// A row list with a space before it is a row list.
pub proof fn lemma_space_values(s: Seq<u8>, insert: bool)
    requires
        s.len() > 0,
        s[0] == ascii::SPACE,
        syntax::values(s.skip(1), insert) is Ok,
    ensures
        syntax::values(s, insert) == Ok::<int, ErrorKind>(
            1 + syntax::values(s.skip(1), insert)->Ok_0,
        ),
{
    assert(lexical::lex(s) == Ok::<(TokenKind, int), ErrorKind>((TokenKind::Space, 1)));
}

/// The head of an `INSERT` reads the same with a space and anything else
/// behind it.
proof fn lemma_head_replayed(a: Seq<u8>, b: Seq<u8>)
    requires
        syntax::unit(a) matches Ok(i) && i.kind == UnitKind::Insert && b.len() >= i.prefix.len()
            && b.take(i.prefix.len() as int) == i.prefix,
    ensures
        ({
            let len = lexical::lex(a)->Ok_0.1;
            let head = syntax::insert_head(a.skip(len))->Ok_0;
            &&& lexical::lex(a) is Ok
            &&& lexical::lex(b) == lexical::lex(a)
            &&& syntax::reads(b, len, "insert")
            &&& syntax::insert_head(a.skip(len)) is Ok
            &&& syntax::insert_head(b.skip(len)) == syntax::insert_head(a.skip(len))
            &&& syntax::unit(a)->Ok_0.prefix.len() == len + head + 1
            &&& len > 0 && head > 0
            &&& b[len + head] == ascii::SPACE
            &&& b.take(len + head).push(ascii::SPACE) == syntax::unit(a)->Ok_0.prefix
        }),
{
    let prefix = syntax::unit(a)->Ok_0.prefix;
    let (kind, len) = lexical::lex(a)->Ok_0;
    let a_rest = a.skip(len);
    let b_rest = b.skip(len);
    let (head, all) = syntax::insert(a_rest)->Ok_0;
    let size = len + head + 1;
    lexical::lemma_lex_len(a);
    framing::lemma_lex_tail(a);
    syntax::lemma_unit_len(a);
    syntax::lemma_insert_head_len(a_rest);
    assert(prefix.len() == size);
    assert(prefix.take(len + head) =~= a.take(len + head));
    assert(prefix[len + head] == ascii::SPACE);
    assert(prefix.take(size) =~= prefix);
    framing::lemma_same_bytes(b, prefix, size);
    assert(b.take(len + head) =~= a.take(len + head));
    framing::lemma_same_parts(a, b, len + head, 0, len);
    framing::lemma_same_parts(a, b, len + head, len, len + head);
    framing::lemma_same_bytes(a, b, len + head);
    assert(b[len] == a[len]);
    framing::lemma_tail_carries(kind, a, b, len);
    framing::lemma_lex_agree(a, b);
    framing::lemma_insert_head_agree(a_rest, b_rest);
    assert(b.take(len + head).push(ascii::SPACE) =~= prefix);
}

/// The prefix of an `INSERT` with a row behind it reads as an `INSERT` with
/// that row as its first and the same prefix, also where the row gets `;` for
/// `,` at its end.
pub proof fn lemma_unit_replayed(a: Seq<u8>, row: Seq<u8>, b: Seq<u8>)
    requires
        syntax::unit(a) matches Ok(i) && i.kind == UnitKind::Insert,
        syntax::unit(row) matches Ok(t) && t.kind == UnitKind::ValuesTuple,
        ({
            let prefix = syntax::unit(a)->Ok_0.prefix;
            let m = syntax::unit(row)->Ok_0.bytes.len() as int;
            &&& b.len() >= prefix.len() + m
            &&& b.take(prefix.len() as int) == prefix
            &&& b.skip(prefix.len() as int).take(m - 1) == row.take(m - 1)
            &&& framing::is_separator(b[prefix.len() + m - 1])
        }),
    ensures
        syntax::unit(b) == Ok::<Unit, ErrorKind>(
            Unit {
                kind: UnitKind::Insert,
                bytes: b.take(
                    (syntax::unit(a)->Ok_0.prefix.len() + syntax::unit(row)->Ok_0.bytes.len())
                        as int,
                ),
                prefix: syntax::unit(a)->Ok_0.prefix,
            },
        ),
{
    let m = syntax::unit(row)->Ok_0.bytes.len() as int;
    let len = lexical::lex(a)->Ok_0.1;
    let head = syntax::insert_head(a.skip(len))->Ok_0;
    let size = len + head + 1;
    lemma_head_replayed(a, b);
    lemma_row_values(row);
    syntax::lemma_unit_len(row);
    let b_space = b.skip(len + head);
    let b_row = b.skip(size);
    assert(b.skip(len).skip(head) =~= b_space);
    assert(b_space.skip(1) =~= b_row);
    assert(b_space[0] == b[len + head]);
    framing::lemma_values_agree(row, b_row, false, true);
    lemma_space_values(b_space, true);
    assert(syntax::insert(b.skip(len)) == Ok::<(int, int), ErrorKind>((head, head + 1 + m)));
}

/// The units of an input that is one unit.
pub proof fn lemma_units_single(c: Seq<u8>)
    requires
        syntax::unit(c) matches Ok(u) && u.bytes == c && u.kind != UnitKind::End,
    ensures
        syntax::units(c) == Ok::<Seq<Unit>, ErrorKind>(seq![syntax::unit(c)->Ok_0]),
{
    let u = syntax::unit(c)->Ok_0;
    let rest = c.skip(u.bytes.len() as int);
    assert(rest =~= Seq::<u8>::empty());
    assert(lexical::lex(rest) == Ok::<(TokenKind, int), ErrorKind>((TokenKind::EOF, 0)));
    assert(syntax::units(rest) == Ok::<Seq<Unit>, ErrorKind>(Seq::empty()));
    assert(seq![u] + Seq::<Unit>::empty() =~= seq![u]);
}

/// The units of an input whose units end by themselves, with more input
/// behind it, are its units and then the units of what is behind it.
pub proof fn lemma_units_append(a: Seq<u8>, b: Seq<u8>)
    requires
        syntax::units(a) matches Ok(us) && forall|i: int|
            0 <= i < us.len() ==> delimited(#[trigger] us[i]),
    ensures
        syntax::units(a + b) == syntax::followed(syntax::units(a)->Ok_0, syntax::units(b)),
    decreases a.len(),
{
    let us = syntax::units(a)->Ok_0;
    let u = syntax::unit(a)->Ok_0;
    syntax::lemma_unit_len(a);
    if u.kind == UnitKind::End {
        assert(a + b =~= b);
        if let Ok(x) = syntax::units(b) {
            assert(us + x =~= x);
        }
    } else {
        let n = u.bytes.len() as int;
        let others = syntax::units(a.skip(n))->Ok_0;
        assert(us[0] == u);
        assert((a + b).take(n) =~= a.take(n));
        lemma_unit_agree(a, a + b);
        assert((a + b).skip(n) =~= a.skip(n) + b);
        assert forall|i: int| 0 <= i < others.len() implies delimited(#[trigger] others[i]) by {
            assert(others[i] == us[i + 1]);
        }
        lemma_units_append(a.skip(n), b);
        if let Ok(x) = syntax::units(b) {
            assert(seq![u] + (others + x) =~= us + x);
        }
    }
}

} // verus!
