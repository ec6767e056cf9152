//! The grammar of statement units: which unit stands at the front of an
//! input.
use vstd::prelude::*;
use vstd::string::StringSliceAdditionalSpecFns;

use crate::ascii;
use crate::lexical;
use crate::token::TokenKind;
use crate::token::TokenView;
use crate::token_err::ErrorKind;

verus! {

/// The class of a statement unit.
#[derive(Clone, Copy, Debug, PartialEq, Eq, Structural)]
pub enum UnitKind {
    Insert,
    ValuesTuple,
    Block,
    Comment,
    SpaceOrLineFeed,
    End,
}

/// The mathematical value of a statement unit.
pub struct Unit {
    pub kind: UnitKind,
    /// The source bytes of the unit, through its terminator.
    pub bytes: Seq<u8>,
    /// For an `INSERT`, the bytes that open the statement again in a new
    /// file; empty for every other unit.
    pub prefix: Seq<u8>,
}

/// The length `first` of a span followed by the length of what comes after
/// it, where that could be read.
pub open spec fn and_then(first: int, rest: Result<int, ErrorKind>) -> Result<int, ErrorKind> {
    match rest {
        Ok(n) => Ok(first + n),
        Err(e) => Err(e),
    }
}

/// Whether the first `len` bytes of `s` read `word` when put in lower case.
pub open spec fn reads(s: Seq<u8>, len: int, word: &str) -> bool {
    ascii::lowered(s.take(len)) == word.spec_bytes()
}

/// The number of bytes from the front of `s` through the first token equal
/// to `stop`. Where the input ends before such a token, the error is
/// `at_end`.
pub open spec fn through(s: Seq<u8>, stop: TokenView, at_end: ErrorKind) -> Result<int, ErrorKind>
    decreases s.len(),
{
    match lexical::lex(s) {
        Err(e) => Err(e),
        Ok((kind, len)) => if kind == TokenKind::EOF {
            Err(at_end)
        } else if kind == stop.kind && s.take(len) == stop.bytes {
            Ok(len)
        } else {
            proof {
                lexical::lemma_lex_len(s);
            }
            and_then(len, through(s.skip(len), stop, at_end))
        },
    }
}

/// A span that ends with a token is not empty and lies within the input.
pub proof fn lemma_through_len(s: Seq<u8>, stop: TokenView, at_end: ErrorKind)
    ensures
        through(s, stop, at_end) matches Ok(n) ==> 0 < n <= s.len(),
    decreases s.len(),
{
    lexical::lemma_lex_len(s);
    if let Ok((kind, len)) = lexical::lex(s) {
        if kind != TokenKind::EOF && !(kind == stop.kind && s.take(len) == stop.bytes) {
            lemma_through_len(s.skip(len), stop, at_end);
        }
    }
}

/// The token `)`.
pub open spec fn right_paren() -> TokenView {
    TokenView { kind: TokenKind::RP, bytes: seq![ascii::RIGHT_PAREN] }
}

/// The number of bytes from the front of `s` through the first `;` that
/// stands outside parentheses: what is left of a statement behind its first
/// keyword. A `(` opens a group that the next `)` closes.
pub open spec fn block(s: Seq<u8>) -> Result<int, ErrorKind>
    decreases s.len(),
{
    match lexical::lex(s) {
        Err(e) => Err(e),
        Ok((kind, len)) => if kind == TokenKind::EOF {
            Err(ErrorKind::UnexpectedEnd)
        } else if kind == TokenKind::SemiColon {
            Ok(len)
        } else if kind == TokenKind::LP {
            proof {
                lexical::lemma_lex_len(s);
                lemma_through_len(s.skip(len), right_paren(), ErrorKind::UnexpectedEnd);
            }
            match through(s.skip(len), right_paren(), ErrorKind::UnexpectedEnd) {
                Err(e) => Err(e),
                Ok(group) => and_then(len + group, block(s.skip(len + group))),
            }
        } else {
            proof {
                lexical::lemma_lex_len(s);
            }
            and_then(len, block(s.skip(len)))
        },
    }
}

/// A statement that ends with its `;` is not empty and lies within the
/// input.
pub proof fn lemma_block_len(s: Seq<u8>)
    ensures
        block(s) matches Ok(n) ==> 0 < n <= s.len(),
    decreases s.len(),
{
    lexical::lemma_lex_len(s);
    if let Ok((kind, len)) = lexical::lex(s) {
        if kind == TokenKind::LP {
            lemma_through_len(s.skip(len), right_paren(), ErrorKind::UnexpectedEnd);
            if let Ok(group) = through(s.skip(len), right_paren(), ErrorKind::UnexpectedEnd) {
                lemma_block_len(s.skip(len + group));
            }
        } else if kind != TokenKind::EOF && kind != TokenKind::SemiColon {
            lemma_block_len(s.skip(len));
        }
    }
}

/// The error for an input that ends inside a parenthesis group.
pub open spec fn group_end(insert: bool) -> ErrorKind {
    if insert {
        ErrorKind::IncompleteInsert
    } else {
        ErrorKind::UnexpectedEnd
    }
}

/// The error for an input that ends between the groups of a row list.
pub open spec fn values_end(insert: bool) -> ErrorKind {
    if insert {
        ErrorKind::IncompleteInsert
    } else {
        ErrorKind::UnparsableValues
    }
}

/// The number of bytes from the front of `s` through the first `,` or `;`
/// that stands outside parentheses. A `(` opens a group that the next `)`
/// closes. `insert` tells whether the rows belong to an `INSERT` that is being
/// read, which decides the error where the input ends too early.
pub open spec fn values(s: Seq<u8>, insert: bool) -> Result<int, ErrorKind>
    decreases s.len(),
{
    match lexical::lex(s) {
        Err(e) => Err(e),
        Ok((kind, len)) => if kind == TokenKind::EOF {
            Err(values_end(insert))
        } else if kind == TokenKind::Comma || kind == TokenKind::SemiColon {
            Ok(len)
        } else if kind == TokenKind::LP {
            proof {
                lexical::lemma_lex_len(s);
                lemma_through_len(s.skip(len), right_paren(), group_end(insert));
            }
            match through(s.skip(len), right_paren(), group_end(insert)) {
                Err(e) => Err(e),
                Ok(group) => and_then(len + group, values(s.skip(len + group), insert)),
            }
        } else {
            proof {
                lexical::lemma_lex_len(s);
            }
            and_then(len, values(s.skip(len), insert))
        },
    }
}

/// A row list that ends with its terminator is not empty and lies within the
/// input.
pub proof fn lemma_values_len(s: Seq<u8>, insert: bool)
    ensures
        values(s, insert) matches Ok(n) ==> 0 < n <= s.len(),
    decreases s.len(),
{
    lexical::lemma_lex_len(s);
    if let Ok((kind, len)) = lexical::lex(s) {
        if kind == TokenKind::LP {
            lemma_through_len(s.skip(len), right_paren(), group_end(insert));
            if let Ok(group) = through(s.skip(len), right_paren(), group_end(insert)) {
                lemma_values_len(s.skip(len + group), insert);
            }
        } else if kind != TokenKind::EOF && kind != TokenKind::Comma && kind
            != TokenKind::SemiColon {
            lemma_values_len(s.skip(len), insert);
        }
    }
}

/// The number of bytes of a row whose `(` stands before `s`: through the
/// next `)`, then through the first `,` or `;` outside parentheses.
pub open spec fn values_tuple(s: Seq<u8>) -> Result<int, ErrorKind> {
    match through(s, right_paren(), ErrorKind::UnexpectedEnd) {
        Err(e) => Err(e),
        Ok(group) => and_then(group, values(s.skip(group), false)),
    }
}

/// The number of bytes from the front of `s`, which stands behind the
/// keyword `INSERT`, through the keyword `VALUES`.
pub open spec fn insert_head(s: Seq<u8>) -> Result<int, ErrorKind>
    decreases s.len(),
{
    match lexical::lex(s) {
        Err(e) => Err(e),
        Ok((kind, len)) => if kind == TokenKind::EOF {
            Err(ErrorKind::IncompleteInsert)
        } else if kind == TokenKind::Keyword && reads(s, len, "values") {
            Ok(len)
        } else {
            proof {
                lexical::lemma_lex_len(s);
            }
            and_then(len, insert_head(s.skip(len)))
        },
    }
}

/// An `INSERT` head that ends with `VALUES` is not empty and lies within the
/// input.
pub proof fn lemma_insert_head_len(s: Seq<u8>)
    ensures
        insert_head(s) matches Ok(n) ==> 0 < n <= s.len(),
    decreases s.len(),
{
    lexical::lemma_lex_len(s);
    if let Ok((kind, len)) = lexical::lex(s) {
        if kind != TokenKind::EOF && !(kind == TokenKind::Keyword && reads(s, len, "values")) {
            lemma_insert_head_len(s.skip(len));
        }
    }
}

/// The spans of an `INSERT` statement whose keyword `INSERT` stands before
/// `s`: the number of bytes through `VALUES`, and through the `,` or `;`
/// behind the first row.
pub open spec fn insert(s: Seq<u8>) -> Result<(int, int), ErrorKind> {
    match insert_head(s) {
        Err(e) => Err(e),
        Ok(head) => match values(s.skip(head), true) {
            Err(e) => Err(e),
            Ok(rows) => Ok((head, head + rows)),
        },
    }
}

/// The statement unit at the front of `s`, or the error that the input runs
/// into.
pub open spec fn unit(s: Seq<u8>) -> Result<Unit, ErrorKind> {
    match lexical::lex(s) {
        Err(e) => Err(e),
        Ok((kind, len)) => match kind {
            TokenKind::EOF => Ok(
                Unit { kind: UnitKind::End, bytes: Seq::empty(), prefix: Seq::empty() },
            ),
            TokenKind::Keyword => if reads(s, len, "insert") {
                match insert(s.skip(len)) {
                    Err(e) => Err(e),
                    Ok((head, all)) => Ok(
                        Unit {
                            kind: UnitKind::Insert,
                            bytes: s.take(len + all),
                            prefix: s.take(len + head).push(ascii::SPACE),
                        },
                    ),
                }
            } else {
                match block(s.skip(len)) {
                    Err(e) => Err(e),
                    Ok(n) => Ok(
                        Unit {
                            kind: UnitKind::Block,
                            bytes: s.take(len + n),
                            prefix: Seq::empty(),
                        },
                    ),
                }
            },
            TokenKind::LP => match values_tuple(s.skip(len)) {
                Err(e) => Err(e),
                Ok(n) => Ok(
                    Unit {
                        kind: UnitKind::ValuesTuple,
                        bytes: s.take(len + n),
                        prefix: Seq::empty(),
                    },
                ),
            },
            TokenKind::Comment | TokenKind::InlineComment => Ok(
                Unit { kind: UnitKind::Comment, bytes: s.take(len), prefix: Seq::empty() },
            ),
            TokenKind::SemiColon | TokenKind::Space | TokenKind::LineFeed => Ok(
                Unit {
                    kind: UnitKind::SpaceOrLineFeed,
                    bytes: s.take(len),
                    prefix: Seq::empty(),
                },
            ),
            TokenKind::RP | TokenKind::Dot | TokenKind::String | TokenKind::Identifier | TokenKind::Comma | TokenKind::Ignore => Err(
                ErrorKind::InvalidSql,
            ),
        },
    }
}

/// A unit is a prefix of the input it is read from, and only the end of
/// the input is a unit without bytes.
pub proof fn lemma_unit_len(s: Seq<u8>)
    ensures
        unit(s) matches Ok(u) ==> {
            &&& u.bytes.len() <= s.len()
            &&& u.bytes == s.take(u.bytes.len() as int)
            &&& (u.kind == UnitKind::End <==> u.bytes.len() == 0)
            &&& (u.kind == UnitKind::End <==> s.len() == 0)
        },
{
    lexical::lemma_lex_len(s);
    if let Ok((kind, len)) = lexical::lex(s) {
        let rest = s.skip(len);
        lemma_insert_head_len(rest);
        if let Ok(head) = insert_head(rest) {
            lemma_values_len(rest.skip(head), true);
        }
        lemma_block_len(rest);
        lemma_through_len(rest, right_paren(), ErrorKind::UnexpectedEnd);
        if let Ok(group) = through(rest, right_paren(), ErrorKind::UnexpectedEnd) {
            lemma_values_len(rest.skip(group), false);
        }
        if let Ok(u) = unit(s) {
            assert(u.bytes =~= s.take(u.bytes.len() as int));
        }
    }
}

/// The statement units of a whole input, front to back, without the closing
/// [`UnitKind::End`]; or the first error that the input runs into.
pub open spec fn units(s: Seq<u8>) -> Result<Seq<Unit>, ErrorKind>
    decreases s.len(),
{
    match unit(s) {
        Err(e) => Err(e),
        Ok(u) => if u.kind == UnitKind::End {
            Ok(Seq::empty())
        } else {
            proof {
                lemma_unit_len(s);
            }
            match units(s.skip(u.bytes.len() as int)) {
                Err(e) => Err(e),
                Ok(others) => Ok(seq![u] + others),
            }
        },
    }
}

/// The units at the front of `s`, up to its end or the first error: the
/// units that are read before the run is over.
pub open spec fn leading(s: Seq<u8>) -> Seq<Unit>
    decreases s.len(),
{
    match unit(s) {
        Err(_) => Seq::empty(),
        Ok(u) => if u.kind != UnitKind::End {
            proof {
                lemma_unit_len(s);
            }
            seq![u] + leading(s.skip(u.bytes.len() as int))
        } else {
            Seq::empty()
        },
    }
}

/// The bytes of `units`, one unit after the other.
pub open spec fn written(units: Seq<Unit>) -> Seq<u8>
    decreases units.len(),
{
    if units.len() == 0 {
        Seq::empty()
    } else {
        units[0].bytes + written(units.skip(1))
    }
}

/// Parsing loses nothing: the bytes of the units of an input, put together
/// in order, are the input.
pub proof fn lemma_units_cover(s: Seq<u8>)
    requires
        units(s) is Ok,
    ensures
        written(units(s)->Ok_0) == s,
    decreases s.len(),
{
    lemma_unit_len(s);
    let u = unit(s)->Ok_0;
    if u.kind == UnitKind::End {
        assert(s =~= Seq::<u8>::empty());
    } else {
        let n = u.bytes.len() as int;
        let others = units(s.skip(n))->Ok_0;
        lemma_units_cover(s.skip(n));
        assert((seq![u] + others).skip(1) =~= others);
        assert(s.take(n) + s.skip(n) =~= s);
    }
}

/// The units that are read from an input are all of its units, where it
/// holds no error; none of them is empty; and their bytes, put together in
/// order, are the front of the input.
pub proof fn lemma_leading(s: Seq<u8>)
    ensures
        units(s) matches Ok(all) ==> leading(s) == all,
        forall|i: int| 0 <= i < leading(s).len() ==> (#[trigger] leading(s)[i]).bytes.len() > 0,
        written(leading(s)).len() <= s.len(),
        written(leading(s)) == s.take(written(leading(s)).len() as int),
    decreases s.len(),
{
    lemma_unit_len(s);
    if unit(s) is Ok && unit(s)->Ok_0.kind != UnitKind::End {
        let u = unit(s)->Ok_0;
        let n = u.bytes.len() as int;
        let others = leading(s.skip(n));
        lemma_leading(s.skip(n));
        assert((seq![u] + others).skip(1) =~= others);
        assert forall|i: int| 0 <= i < leading(s).len() implies (#[trigger] leading(
            s,
        )[i]).bytes.len() > 0 by {
            if i > 0 {
                assert(leading(s)[i] == others[i - 1]);
            }
        }
        let m = written(others).len() as int;
        assert(s.take(n) + s.skip(n).take(m) =~= s.take(n + m));
    } else {
        assert(written(leading(s)) =~= s.take(0));
    }
}

/// `done` followed by the units still to come, where those could be read.
pub open spec fn followed(done: Seq<Unit>, others: Result<Seq<Unit>, ErrorKind>) -> Result<
    Seq<Unit>,
    ErrorKind,
> {
    match others {
        Ok(us) => Ok(done + us),
        Err(e) => Err(e),
    }
}

/// The units of an input are its first unit and the units of what is left
/// behind it.
pub proof fn lemma_units_step(s: Seq<u8>, done: Seq<Unit>)
    ensures
        match unit(s) {
            Err(e) => followed(done, units(s)) == Err::<Seq<Unit>, ErrorKind>(e),
            Ok(u) => if u.kind == UnitKind::End {
                followed(done, units(s)) == Ok::<Seq<Unit>, ErrorKind>(done)
            } else {
                followed(done, units(s)) == followed(
                    done.push(u),
                    units(s.skip(u.bytes.len() as int)),
                )
            },
        },
{
    if let Ok(u) = unit(s) {
        if u.kind == UnitKind::End {
            assert(done + Seq::<Unit>::empty() =~= done);
        } else if let Ok(others) = units(s.skip(u.bytes.len() as int)) {
            assert(done + (seq![u] + others) =~= done.push(u) + others);
        }
    }
}

/// The bytes of a sequence of units and one more unit.
pub proof fn lemma_written_push(units: Seq<Unit>, unit: Unit)
    ensures
        written(units.push(unit)) == written(units) + unit.bytes,
    decreases units.len(),
{
    let more = units.push(unit);
    if units.len() == 0 {
        assert(more.skip(1) =~= Seq::<Unit>::empty());
        assert(written(more.skip(1)) =~= Seq::<u8>::empty());
        assert(more[0] == unit);
        assert(written(more) =~= unit.bytes);
        assert(written(units) + unit.bytes =~= unit.bytes);
    } else {
        assert(more.skip(1) =~= units.skip(1).push(unit));
        lemma_written_push(units.skip(1), unit);
        assert(written(more) =~= written(units) + unit.bytes);
    }
}

} // verus!
