//! Every output file is a script of its own: it parses, and no `INSERT` in
//! it is left open.
use vstd::prelude::*;

use crate::ascii;
use crate::delimit;
use crate::framing;
use crate::lexical;
use crate::policy;
use crate::policy::Progress;
use crate::syntax;
use crate::syntax::Unit;
use crate::syntax::UnitKind;
use crate::token::TokenKind;
use crate::token_err::ErrorKind;

verus! {

/// Whether `unit` is a comment or a blank byte, which may stand anywhere.
pub open spec fn idle(unit: Unit) -> bool {
    unit.kind == UnitKind::Comment || (unit.kind == UnitKind::SpaceOrLineFeed && unit.bytes
        != seq![ascii::SEMICOLON])
}

/// Whether a row list is open behind `unit`, where `open` tells whether one
/// is open before it; nothing where `unit` cannot stand there. A comment or a
/// blank byte changes nothing. An `INSERT` opens a row list if it ends with
/// `,`. A row needs an open row list, and keeps it open if it ends with `,`.
/// Anything else needs all row lists closed.
pub open spec fn settle(open: bool, unit: Unit) -> Option<bool> {
    if idle(unit) {
        Some(open)
    } else if unit.kind == UnitKind::ValuesTuple {
        if open {
            Some(unit.bytes.last() == ascii::COMMA)
        } else {
            None
        }
    } else if open {
        None
    } else if unit.kind == UnitKind::Insert {
        Some(unit.bytes.last() == ascii::COMMA)
    } else {
        Some(false)
    }
}

/// Whether a row list is open behind `units`; nothing where a row stands
/// outside a row list, or a statement inside one.
pub open spec fn balance(units: Seq<Unit>) -> Option<bool>
    decreases units.len(),
{
    if units.len() == 0 {
        Some(false)
    } else {
        match balance(units.drop_last()) {
            None => None,
            Some(open) => settle(open, units.last()),
        }
    }
}

/// Whether `units` are complete statements: every row stands in the row
/// list of an `INSERT`, with nothing but rows, comments and blank bytes before
/// it in the list, and the last row of every `INSERT` ends with `;`.
pub open spec fn complete(units: Seq<Unit>) -> bool {
    balance(units) == Some(false)
}

/// Whether `script` is complete SQL by itself: it can be read as statement
/// units to its end, and they are complete statements.
pub open spec fn sound(script: Seq<u8>) -> bool {
    syntax::units(script) matches Ok(units) && complete(units)
}

/// Whether `unit` is the first unit of some input.
pub open spec fn genuine(unit: Unit) -> bool {
    exists|a: Seq<u8>| syntax::unit(a) == Ok::<Unit, ErrorKind>(unit)
}

/// Whether the prefix that `p` holds is the prefix of an `INSERT` of some
/// input.
pub open spec fn replayable(p: Progress) -> bool {
    exists|a: Seq<u8>|
        (#[trigger] syntax::unit(a)) matches Ok(i) && i.kind == UnitKind::Insert && i.prefix
            == p.last_insert
}

/// Whether a row is written with the prefix of an `INSERT` before it: it
/// opens a file, and an `INSERT` has been seen.
pub open spec fn reopens(p: Progress, unit: Unit) -> bool {
    unit.kind == UnitKind::ValuesTuple && p.total == 0 && p.last_insert.len() > 0
}

/// The unit that the bytes written for `unit` are: the unit itself, with the
/// bytes written for it; but an `INSERT`, where a row is written with the
/// prefix of one before it.
pub open spec fn written_unit(max: nat, p: Progress, unit: Unit) -> Unit {
    Unit {
        kind: if reopens(p, unit) {
            UnitKind::Insert
        } else {
            unit.kind
        },
        bytes: policy::chunk(max, p, unit),
        prefix: if reopens(p, unit) {
            p.last_insert
        } else {
            unit.prefix
        },
    }
}

/// What is written for a unit is one unit by itself.
pub proof fn lemma_chunk_units(max: nat, p: Progress, unit: Unit)
    requires
        genuine(unit),
        unit.kind != UnitKind::End,
        reopens(p, unit) ==> replayable(p),
    ensures
        ({
            let v = written_unit(max, p, unit);
            &&& syntax::units(v.bytes) == Ok::<Seq<Unit>, ErrorKind>(seq![v])
            &&& v.bytes.len() > 0
            &&& v.bytes.last() == if policy::closes(max, p, unit) {
                ascii::SEMICOLON
            } else {
                unit.bytes.last()
            }
            &&& delimit::delimited(unit) ==> delimit::delimited(v)
        }),
{
    let a = choose|a: Seq<u8>| syntax::unit(a) == Ok::<Unit, ErrorKind>(unit);
    let v = written_unit(max, p, unit);
    let c = v.bytes;
    let n = unit.bytes.len() as int;
    syntax::lemma_unit_len(a);
    delimit::lemma_unit_end(a);
    policy::lemma_chunk_shape(max, p, unit);
    let before = policy::replay(p, unit);
    assert((before + unit.bytes).len() == before.len() + n);
    if unit.kind == UnitKind::ValuesTuple {
        assert(c.len() == before.len() + n);
        assert(framing::is_separator(c[before.len() + n - 1]));
        assert(c.skip(before.len() as int).take(n - 1) =~= a.take(n - 1));
        if reopens(p, unit) {
            let i = choose|i: Seq<u8>|
                (#[trigger] syntax::unit(i)) matches Ok(x) && x.kind == UnitKind::Insert
                    && x.prefix == p.last_insert;
            assert(c.take(before.len() as int) =~= before);
            delimit::lemma_unit_replayed(i, a, c);
            assert(c.take(before.len() + n) =~= c);
        } else {
            assert(before =~= Seq::<u8>::empty());
            assert(c.skip(0) =~= c);
            assert(c.take(n - 1) =~= a.take(n - 1));
            delimit::lemma_unit_closed(a, c);
            assert(c.take(n) =~= c);
        }
        assert(syntax::unit(c) == Ok::<Unit, ErrorKind>(v));
    } else {
        assert(c =~= unit.bytes);
        if delimit::delimited(unit) {
            assert(c.take(n) =~= a.take(n));
            delimit::lemma_unit_agree(a, c);
        } else {
            delimit::lemma_unit_cut_short(a);
            assert(c == a);
        }
        assert(v == unit);
        assert(syntax::unit(c) == Ok::<Unit, ErrorKind>(v));
    }
    delimit::lemma_units_single(c);
}

/// The units that are read from an input are units of inputs, none of
/// them is the end of one, and each but the last ends by itself.
pub proof fn lemma_leading_parts(s: Seq<u8>)
    ensures
        ({
            let us = syntax::leading(s);
            &&& forall|i: int|
                0 <= i < us.len() ==> genuine(#[trigger] us[i]) && us[i].kind != UnitKind::End
            &&& forall|i: int| 0 <= i < us.len() - 1 ==> delimit::delimited(#[trigger] us[i])
        }),
    decreases s.len(),
{
    let us = syntax::leading(s);
    syntax::lemma_unit_len(s);
    if syntax::unit(s) is Ok && syntax::unit(s)->Ok_0.kind != UnitKind::End {
        let u = syntax::unit(s)->Ok_0;
        let n = u.bytes.len() as int;
        let others = syntax::leading(s.skip(n));
        lemma_leading_parts(s.skip(n));
        delimit::lemma_unit_cut_short(s);
        assert(us[0] == u);
        assert forall|i: int| 0 <= i < us.len() implies genuine(#[trigger] us[i]) && us[i].kind
            != UnitKind::End by {
            if i > 0 {
                assert(us[i] == others[i - 1]);
            }
        }
        assert forall|i: int| 0 <= i < us.len() - 1 implies delimit::delimited(
            #[trigger] us[i],
        ) by {
            if i > 0 {
                assert(us[i] == others[i - 1]);
            } else if !delimit::delimited(u) {
                assert(s.skip(n) =~= Seq::<u8>::empty());
            }
        }
    }
}

/// Whether a row list is open at the end of the output file that is being
/// written when `done` have been written; nothing where the units written to
/// that file are out of order. A file starts with all row lists closed, and
/// each unit written to it counts as the unit that its bytes are.
pub open spec fn file_balance(max: nat, done: Seq<Unit>) -> Option<bool>
    decreases done.len(),
{
    if done.len() == 0 {
        Some(false)
    } else {
        let p = policy::progress(max, policy::start(), done.drop_last());
        let before = if p.total == 0 {
            Some(false)
        } else {
            file_balance(max, done.drop_last())
        };
        match before {
            None => None,
            Some(open) => settle(open, written_unit(max, p, done.last())),
        }
    }
}

/// Whether every output file before the one that is being written when
/// `done` have been written holds complete statements: wherever a unit has
/// used up the budget of its file, the units of that file are in order and no
/// row list is open behind them.
#[verifier::opaque]
pub open spec fn closed_cuts(max: nat, done: Seq<Unit>) -> bool {
    forall|k: int|
        0 < k < done.len() && policy::progress(max, policy::start(), #[trigger] done.take(k)).total
            == 0 ==> file_balance(max, done.take(k)) == Some(false)
}

/// Whether every output file of `units` holds complete statements: in each
/// file, a row follows an `INSERT` or a row of it, with nothing but comments
/// and blank bytes between them, and the file ends behind a statement or a row
/// that ends with `;`. A row that opens a file counts as the `INSERT` that it
/// is written as, and a row that uses up the budget ends with `;`.
pub open spec fn tidy(max: nat, units: Seq<Unit>) -> bool {
    closed_cuts(max, units) && file_balance(max, units) == Some(false)
}

/// Whether every output file before the last one is complete SQL.
#[verifier::opaque]
pub open spec fn sound_before_last(files: Seq<Seq<u8>>) -> bool {
    forall|i: int| 0 <= i < files.len() - 1 ==> sound(#[trigger] files[i])
}

/// What holds of the output files while `done` are written: the files
/// before the last one are complete SQL just where [`closed_cuts`] says so;
/// the last one can be read as units, all of which end by themselves as far as
/// those of `done` do, and a row list is open behind them just where
/// [`file_balance`] says so; and the prefix that is kept is the prefix of an
/// `INSERT`.
pub open spec fn carried(max: nat, done: Seq<Unit>) -> bool {
    let fs = policy::contents(policy::files(policy::chunks(max, policy::start(), done)));
    let p = policy::progress(max, policy::start(), done);
    &&& sound_before_last(fs) <==> closed_cuts(max, done)
    &&& done.len() == 0 ==> fs.len() == 0
    &&& done.len() > 0 ==> {
        &&& fs.len() > 0
        &&& syntax::units(fs.last()) matches Ok(x) && x.len() > 0 && balance(x) == file_balance(
            max,
            done,
        ) && (forall|j: int| 0 <= j < x.len() - 1 ==> delimit::delimited(#[trigger] x[j]))
            && (delimit::delimited(done.last()) ==> delimit::delimited(x.last()))
    }
    &&& p.last_insert.len() > 0 ==> replayable(p)
}

/// The cuts behind a sequence of units are the cuts behind all but the last
/// of them, and the cut before the last, where there is one.
proof fn lemma_cuts_step(max: nat, done: Seq<Unit>)
    requires
        done.len() > 0,
    ensures
        ({
            let earlier = done.drop_last();
            let p = policy::progress(max, policy::start(), earlier);
            closed_cuts(max, done) <==> closed_cuts(max, earlier) && (earlier.len() > 0 && p.total
                == 0 ==> file_balance(max, earlier) == Some(false))
        }),
{
    reveal(closed_cuts);
    let earlier = done.drop_last();
    let p = policy::progress(max, policy::start(), earlier);
    let n = earlier.len() as int;
    assert(done.take(n) =~= earlier);
    if closed_cuts(max, done) {
        assert forall|k: int|
            0 < k < earlier.len() && policy::progress(
                max,
                policy::start(),
                #[trigger] earlier.take(k),
            ).total == 0 implies file_balance(max, earlier.take(k)) == Some(false) by {
            assert(done.take(k) =~= earlier.take(k));
        }
        if n > 0 && p.total == 0 {
            assert(file_balance(max, done.take(n)) == Some(false));
        }
    }
    if closed_cuts(max, earlier) && (n > 0 && p.total == 0 ==> file_balance(max, earlier) == Some(
        false,
    )) {
        assert forall|k: int|
            0 < k < done.len() && policy::progress(
                max,
                policy::start(),
                #[trigger] done.take(k),
            ).total == 0 implies file_balance(max, done.take(k)) == Some(false) by {
            if k < n {
                assert(done.take(k) =~= earlier.take(k));
            }
        }
    }
}

/// With one more file, the files before the last are those that were
/// before the last, and the one that was last.
proof fn lemma_sound_opened(before: Seq<Seq<u8>>, bytes: Seq<u8>)
    ensures
        sound_before_last(before.push(bytes)) <==> sound_before_last(before) && (before.len() > 0
            ==> sound(before.last())),
{
    reveal(sound_before_last);
    let files = before.push(bytes);
    if sound_before_last(files) {
        assert forall|i: int| 0 <= i < before.len() implies sound(#[trigger] before[i]) by {
            assert(files[i] == before[i]);
        }
    }
    if sound_before_last(before) && (before.len() > 0 ==> sound(before.last())) {
        assert forall|i: int| 0 <= i < files.len() - 1 implies sound(#[trigger] files[i]) by {
            assert(files[i] == before[i]);
        }
    }
}

/// With more bytes in the last file, the files before the last are as they
/// were.
proof fn lemma_sound_continued(before: Seq<Seq<u8>>, bytes: Seq<u8>)
    requires
        before.len() > 0,
    ensures
        sound_before_last(before.drop_last().push(bytes)) <==> sound_before_last(before),
{
    reveal(sound_before_last);
    let files = before.drop_last().push(bytes);
    if sound_before_last(files) {
        assert forall|i: int| 0 <= i < before.len() - 1 implies sound(#[trigger] before[i]) by {
            assert(files[i] == before[i]);
        }
    }
    if sound_before_last(before) {
        assert forall|i: int| 0 <= i < files.len() - 1 implies sound(#[trigger] files[i]) by {
            assert(files[i] == before[i]);
        }
    }
}

/// The prefix that is kept is the prefix of an `INSERT`, also behind one
/// more unit.
proof fn lemma_replayable_step(max: nat, p: Progress, unit: Unit)
    requires
        genuine(unit),
        p.last_insert.len() > 0 ==> replayable(p),
    ensures
        policy::advance(max, p, unit).last_insert.len() > 0 ==> replayable(
            policy::advance(max, p, unit),
        ),
{
    let after = policy::advance(max, p, unit);
    if after.last_insert.len() > 0 {
        if unit.kind == UnitKind::Insert {
            let a = choose|a: Seq<u8>| syntax::unit(a) == Ok::<Unit, ErrorKind>(unit);
            assert(syntax::unit(a) matches Ok(i) && i.kind == UnitKind::Insert && i.prefix
                == after.last_insert);
        } else {
            let a = choose|a: Seq<u8>|
                (#[trigger] syntax::unit(a)) matches Ok(i) && i.kind == UnitKind::Insert
                    && i.prefix == p.last_insert;
            assert(syntax::unit(a) matches Ok(i) && i.kind == UnitKind::Insert && i.prefix
                == after.last_insert);
        }
    }
}

/// The units of the last file, with one more unit written behind them.
proof fn lemma_last_continued(last: Seq<u8>, v: Unit)
    requires
        syntax::units(last) matches Ok(x) && x.len() > 0 && forall|j: int|
            0 <= j < x.len() ==> delimit::delimited(#[trigger] x[j]),
        syntax::units(v.bytes) == Ok::<Seq<Unit>, ErrorKind>(seq![v]),
    ensures
        ({
            let x = syntax::units(last)->Ok_0;
            &&& syntax::units(last + v.bytes) == Ok::<Seq<Unit>, ErrorKind>(x.push(v))
            &&& balance(x.push(v)) == match balance(x) {
                None => None,
                Some(open) => settle(open, v),
            }
            &&& forall|j: int| 0 <= j < x.len() ==> delimit::delimited(#[trigger] x.push(v)[j])
        }),
{
    let x = syntax::units(last)->Ok_0;
    delimit::lemma_units_append(last, v.bytes);
    assert(x + seq![v] =~= x.push(v));
    assert(x.push(v).drop_last() =~= x);
}

/// One more unit keeps what [`carried`] says.
proof fn lemma_carried_step(max: nat, done: Seq<Unit>)
    requires
        done.len() > 0,
        carried(max, done.drop_last()),
        genuine(done.last()),
        done.last().kind != UnitKind::End,
        forall|i: int| 0 <= i < done.len() - 1 ==> delimit::delimited(#[trigger] done[i]),
    ensures
        carried(max, done),
{
    let earlier = done.drop_last();
    let u = done.last();
    let p = policy::progress(max, policy::start(), earlier);
    let cs = policy::chunks(max, policy::start(), done);
    let fs_before = policy::contents(policy::files(policy::chunks(max, policy::start(), earlier)));
    let fs = policy::contents(policy::files(cs));
    let v = written_unit(max, p, u);
    assert(earlier.push(u) =~= done);
    policy::lemma_chunks_step(max, policy::start(), earlier, u);
    assert(cs.drop_last() =~= policy::chunks(max, policy::start(), earlier));
    policy::lemma_files_step(cs);
    lemma_chunk_units(max, p, u);
    lemma_replayable_step(max, p, u);
    lemma_cuts_step(max, done);
    if p.total == 0 || fs_before.len() == 0 {
        assert(fs == fs_before.push(v.bytes));
        lemma_sound_opened(fs_before, v.bytes);
        assert(seq![v].drop_last() =~= Seq::<Unit>::empty());
        assert(seq![v].last() == v);
        assert(balance(seq![v].drop_last()) == Some(false));
        assert(balance(seq![v]) == settle(false, v));
    } else {
        let last = fs_before.last();
        let x = syntax::units(last)->Ok_0;
        assert(fs == fs_before.drop_last().push(last + v.bytes));
        lemma_sound_continued(fs_before, last + v.bytes);
        assert(delimit::delimited(earlier.last())) by {
            assert(earlier.last() == done[done.len() - 2]);
        }
        assert forall|j: int| 0 <= j < x.len() implies delimit::delimited(#[trigger] x[j]) by {
            if j == x.len() - 1 {
                assert(x[j] == x.last());
            }
        }
        lemma_last_continued(last, v);
        assert(x.push(v).last() == v);
    }
}

/// [`carried`] holds all the way through a run.
proof fn lemma_carried(max: nat, done: Seq<Unit>)
    requires
        forall|i: int|
            0 <= i < done.len() ==> genuine(#[trigger] done[i]) && done[i].kind != UnitKind::End,
        forall|i: int| 0 <= i < done.len() - 1 ==> delimit::delimited(#[trigger] done[i]),
    ensures
        carried(max, done),
    decreases done.len(),
{
    if done.len() == 0 {
        reveal(closed_cuts);
        reveal(sound_before_last);
        assert(policy::chunks(max, policy::start(), done) =~= Seq::<policy::Chunk>::empty());
    } else {
        let earlier = done.drop_last();
        assert forall|i: int| 0 <= i < earlier.len() implies genuine(#[trigger] earlier[i])
            && earlier[i].kind != UnitKind::End by {
            assert(earlier[i] == done[i]);
        }
        assert forall|i: int| 0 <= i < earlier.len() - 1 implies delimit::delimited(
            #[trigger] earlier[i],
        ) by {
            assert(earlier[i] == done[i]);
        }
        lemma_carried(max, earlier);
        lemma_carried_step(max, done);
    }
}

/// The output files of a dump are complete SQL, each by itself, just where
/// [`tidy`] says so: every file can be read as the units that were written to
/// it, and it is complete SQL if and only if those units are in order and end
/// with all row lists closed. This holds of the files written up to the first
/// error, too, where the dump holds one.
pub proof fn lemma_files_sound(max: nat, input: Seq<u8>)
    ensures
        ({
            let units = syntax::leading(input);
            let files = policy::contents(
                policy::files(policy::chunks(max, policy::start(), units)),
            );
            (forall|i: int| 0 <= i < files.len() ==> sound(#[trigger] files[i])) <==> tidy(
                max,
                units,
            )
        }),
{
    reveal(closed_cuts);
    reveal(sound_before_last);
    let units = syntax::leading(input);
    let files = policy::contents(policy::files(policy::chunks(max, policy::start(), units)));
    lemma_leading_parts(input);
    lemma_carried(max, units);
    if units.len() > 0 {
        if forall|i: int| 0 <= i < files.len() ==> sound(#[trigger] files[i]) {
            assert(sound(files[files.len() - 1]));
            assert(sound_before_last(files));
        }
        if tidy(max, units) {
            assert forall|i: int| 0 <= i < files.len() implies sound(#[trigger] files[i]) by {
                if i == files.len() - 1 {
                    assert(files[i] == files.last());
                }
            }
        }
    }
}

} // verus!
