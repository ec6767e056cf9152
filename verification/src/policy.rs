//! The chunking policy: what is written for a statement unit, and when a
//! new output file begins.
use vstd::prelude::*;

use crate::ascii;
use crate::syntax;
use crate::syntax::Unit;
use crate::syntax::UnitKind;

verus! {

/// What the splitter remembers between two units.
pub struct Progress {
    /// The number of bytes written to the current output file; zero when the
    /// next chunk opens a new file.
    pub total: nat,
    /// The prefix of the `INSERT` statement seen last; empty before the
    /// first.
    pub last_insert: Seq<u8>,
}

/// The progress at the start of a run.
pub open spec fn start() -> Progress {
    Progress { total: 0, last_insert: Seq::empty() }
}

/// Whether a file that holds `total` bytes has used up a budget of `max`
/// bytes.
pub open spec fn reached_limit(max: nat, total: nat) -> bool {
    total >= max
}

/// `chunk` with `;` as its last byte.
pub open spec fn closed(chunk: Seq<u8>) -> Seq<u8> {
    if chunk.len() > 0 {
        chunk.update(chunk.len() - 1, ascii::SEMICOLON)
    } else {
        chunk
    }
}

/// What a row is preceded by when it is written: the prefix of the last
/// `INSERT` where the row opens a file, and nothing elsewhere.
pub open spec fn replay(p: Progress, unit: Unit) -> Seq<u8> {
    if unit.kind == UnitKind::ValuesTuple && p.total == 0 {
        p.last_insert
    } else {
        Seq::empty()
    }
}

/// Whether the row `unit` uses up the budget of the current file, so that it
/// is written with `;` at its end.
pub open spec fn closes(max: nat, p: Progress, unit: Unit) -> bool {
    unit.kind == UnitKind::ValuesTuple && reached_limit(
        max,
        p.total + replay(p, unit).len() + unit.bytes.len(),
    )
}

/// The bytes that are written for `unit`.
pub open spec fn chunk(max: nat, p: Progress, unit: Unit) -> Seq<u8> {
    if closes(max, p, unit) {
        closed(replay(p, unit) + unit.bytes)
    } else {
        replay(p, unit) + unit.bytes
    }
}

/// The number of bytes in the current file once `len` more are written, or
/// zero where that uses up the budget.
pub open spec fn counted(max: nat, total: nat, len: nat) -> nat {
    if reached_limit(max, total + len) {
        0
    } else {
        total + len
    }
}

/// The progress after `unit` has been written.
pub open spec fn advance(max: nat, p: Progress, unit: Unit) -> Progress {
    Progress {
        total: counted(max, p.total, chunk(max, p, unit).len()),
        last_insert: if unit.kind == UnitKind::Insert {
            unit.prefix
        } else {
            p.last_insert
        },
    }
}

/// The progress after `units` have been written, one after the other,
/// starting from `p`.
pub open spec fn progress(max: nat, p: Progress, units: Seq<Unit>) -> Progress
    decreases units.len(),
{
    if units.len() == 0 {
        p
    } else {
        advance(max, progress(max, p, units.drop_last()), units.last())
    }
}

/// A row that uses up the budget of its file is written with `;` at its
/// end, and so is a row that opens a file and uses it up at once; every other
/// unit is written with the last byte it has.
pub proof fn lemma_last_byte(max: nat, p: Progress, unit: Unit)
    requires
        unit.bytes.len() > 0,
    ensures
        chunk(max, p, unit).len() == replay(p, unit).len() + unit.bytes.len(),
        chunk(max, p, unit).last() == if closes(max, p, unit) {
            ascii::SEMICOLON
        } else {
            unit.bytes.last()
        },
        advance(max, p, unit).total == 0 <==> reached_limit(
            max,
            p.total + chunk(max, p, unit).len(),
        ),
        unit.kind == UnitKind::ValuesTuple ==> (closes(max, p, unit) <==> advance(
            max,
            p,
            unit,
        ).total == 0),
{
}

/// The prefix that is kept behind `units`, where `kept` was kept before
/// them: the prefix of the last `INSERT` among them, or `kept` where there is
/// none.
pub open spec fn latest_prefix(kept: Seq<u8>, units: Seq<Unit>) -> Seq<u8>
    decreases units.len(),
{
    if units.len() == 0 {
        kept
    } else if units.last().kind == UnitKind::Insert {
        units.last().prefix
    } else {
        latest_prefix(kept, units.drop_last())
    }
}

/// The prefix that the splitter keeps is the prefix of the last `INSERT` it
/// has seen.
pub proof fn lemma_last_insert(max: nat, p: Progress, units: Seq<Unit>)
    ensures
        progress(max, p, units).last_insert == latest_prefix(p.last_insert, units),
    decreases units.len(),
{
    if units.len() > 0 {
        lemma_last_insert(max, p, units.drop_last());
    }
}

/// One step of the output: bytes, and whether they open a new file.
pub struct Chunk {
    pub opens: bool,
    pub bytes: Seq<u8>,
}

/// The chunk that is written for the unit at index `i` of `units`.
pub open spec fn chunk_at(max: nat, p: Progress, units: Seq<Unit>, i: int) -> Chunk {
    let before = progress(max, p, units.take(i));
    Chunk { opens: before.total == 0, bytes: chunk(max, before, units[i]) }
}

/// The chunks that are written for `units`, starting from `p`.
pub open spec fn chunks(max: nat, p: Progress, units: Seq<Unit>) -> Seq<Chunk> {
    Seq::new(units.len(), |i: int| chunk_at(max, p, units, i))
}

/// The output files that `chunks` make, each as the sequence of the chunks
/// written to it. A chunk that opens a file starts the next one, and so does
/// the first chunk of all.
pub open spec fn files(chunks: Seq<Chunk>) -> Seq<Seq<Seq<u8>>>
    decreases chunks.len(),
{
    if chunks.len() == 0 {
        Seq::empty()
    } else {
        let before = files(chunks.drop_last());
        if chunks.last().opens || before.len() == 0 {
            before.push(seq![chunks.last().bytes])
        } else {
            before.drop_last().push(before.last().push(chunks.last().bytes))
        }
    }
}

/// The bytes of each of `files`.
pub open spec fn contents(files: Seq<Seq<Seq<u8>>>) -> Seq<Seq<u8>> {
    Seq::new(files.len(), |i: int| files[i].flatten())
}

/// The bytes of the output files after `bytes` are written: to a file of
/// their own, behind `files`, where they open a file or there is none yet, and
/// else behind the bytes of the last file.
pub open spec fn placed(files: Seq<Seq<u8>>, opens: bool, bytes: Seq<u8>) -> Seq<Seq<u8>> {
    if opens || files.len() == 0 {
        files.push(bytes)
    } else {
        files.drop_last().push(files.last() + bytes)
    }
}

/// The bytes of the output files after one more chunk.
pub proof fn lemma_files_step(chunks: Seq<Chunk>)
    requires
        chunks.len() > 0,
    ensures
        contents(files(chunks)) == placed(
            contents(files(chunks.drop_last())),
            chunks.last().opens,
            chunks.last().bytes,
        ),
{
    broadcast use Seq::lemma_flatten_push;

    let before = files(chunks.drop_last());
    let bytes = chunks.last().bytes;
    if chunks.last().opens || before.len() == 0 {
        seq![bytes].lemma_flatten_one_element();
        assert(contents(files(chunks)) =~= contents(before).push(bytes));
    } else {
        assert(contents(files(chunks)) =~= contents(before).drop_last().push(
            contents(before).last() + bytes,
        ));
    }
}

/// The chunks of a sequence of units and one more unit.
pub proof fn lemma_chunks_step(max: nat, p: Progress, units: Seq<Unit>, unit: Unit)
    ensures
        chunks(max, p, units.push(unit)) == chunks(max, p, units).push(
            Chunk {
                opens: progress(max, p, units).total == 0,
                bytes: chunk(max, progress(max, p, units), unit),
            },
        ),
        progress(max, p, units.push(unit)) == advance(max, progress(max, p, units), unit),
{
    let more = units.push(unit);
    assert(more.drop_last() =~= units);
    assert(more.take(units.len() as int) =~= units);
    assert forall|i: int| 0 <= i < units.len() implies chunk_at(max, p, more, i) == chunk_at(
        max,
        p,
        units,
        i,
    ) by {
        assert(more.take(i) =~= units.take(i));
    }
    assert(chunks(max, p, more) =~= chunks(max, p, units).push(
        Chunk {
            opens: progress(max, p, units).total == 0,
            bytes: chunk(max, progress(max, p, units), unit),
        },
    ));
}

/// Writing two sequences of units, one after the other, is writing the
/// first and then, from where that ends, the second.
pub proof fn lemma_chunks_concat(max: nat, p: Progress, first: Seq<Unit>, second: Seq<Unit>)
    ensures
        progress(max, p, first + second) == progress(max, progress(max, p, first), second),
        chunks(max, p, first + second) == chunks(max, p, first) + chunks(
            max,
            progress(max, p, first),
            second,
        ),
    decreases second.len(),
{
    if second.len() == 0 {
        assert(first + second =~= first);
        assert(chunks(max, progress(max, p, first), second) =~= Seq::<Chunk>::empty());
        assert(chunks(max, p, first) + Seq::<Chunk>::empty() =~= chunks(max, p, first));
    } else {
        let earlier = second.drop_last();
        lemma_chunks_concat(max, p, first, earlier);
        assert(first + second =~= (first + earlier).push(second.last()));
        assert(second =~= earlier.push(second.last()));
        lemma_chunks_step(max, p, first + earlier, second.last());
        lemma_chunks_step(max, progress(max, p, first), earlier, second.last());
        assert(chunks(max, p, first + second) =~= chunks(max, p, first) + chunks(
            max,
            progress(max, p, first),
            second,
        ));
    }
}

/// The bytes of `chunks`, one chunk after the other.
pub open spec fn poured(chunks: Seq<Chunk>) -> Seq<u8>
    decreases chunks.len(),
{
    if chunks.len() == 0 {
        Seq::empty()
    } else {
        poured(chunks.drop_last()) + chunks.last().bytes
    }
}

/// The bytes of `files`, one file after the other.
pub open spec fn spliced(files: Seq<Seq<Seq<u8>>>) -> Seq<u8>
    decreases files.len(),
{
    if files.len() == 0 {
        Seq::empty()
    } else {
        spliced(files.drop_last()) + files.last().flatten()
    }
}

/// Whether `body` is `bytes` but for its last byte.
pub open spec fn same_but_last(body: Seq<u8>, bytes: Seq<u8>) -> bool {
    body.len() == bytes.len() && body.drop_last() == bytes.drop_last()
}

/// Whether `written` is `unit` but for what the policy may add and change:
/// before a row that opens a file, the prefix of the last `INSERT`; and as the
/// last byte of a row, `;`.
pub open spec fn kept(p: Progress, unit: Unit, written: Seq<u8>) -> bool {
    let body = written.skip(replay(p, unit).len() as int);
    &&& written == replay(p, unit) + body
    &&& replay(p, unit) == Seq::<u8>::empty() || (unit.kind == UnitKind::ValuesTuple && p.total
        == 0 && replay(p, unit) == p.last_insert)
    &&& same_but_last(body, unit.bytes)
    &&& body.last() == unit.bytes.last() || (unit.kind == UnitKind::ValuesTuple && body.last()
        == ascii::SEMICOLON)
}

/// What is written for a unit is the unit itself, with two exceptions and no
/// others: a row that opens a file has the prefix of the last `INSERT` before
/// it, and a row that uses up the budget has `;` as its last byte.
pub proof fn lemma_chunk_shape(max: nat, p: Progress, unit: Unit)
    requires
        unit.bytes.len() > 0,
    ensures
        kept(p, unit, chunk(max, p, unit)),
{
    let written = chunk(max, p, unit);
    let before = replay(p, unit);
    let body = written.skip(before.len() as int);
    assert((before + unit.bytes).skip(before.len() as int) =~= unit.bytes);
    if closes(max, p, unit) {
        assert(body =~= unit.bytes.update(unit.bytes.len() - 1, ascii::SEMICOLON));
        assert(body.drop_last() =~= unit.bytes.drop_last());
    }
    assert(written =~= before + body);
}

/// Putting the output files together in order gives the chunks in the order
/// in which they were written.
pub proof fn lemma_files_reassemble(chunks: Seq<Chunk>)
    ensures
        spliced(files(chunks)) == poured(chunks),
    decreases chunks.len(),
{
    broadcast use Seq::lemma_flatten_push;

    if chunks.len() > 0 {
        let before = files(chunks.drop_last());
        let bytes = chunks.last().bytes;
        lemma_files_reassemble(chunks.drop_last());
        if chunks.last().opens || before.len() == 0 {
            seq![bytes].lemma_flatten_one_element();
            assert(before.push(seq![bytes]).drop_last() =~= before);
        } else {
            let fs = before.drop_last().push(before.last().push(bytes));
            assert(fs.drop_last() =~= before.drop_last());
            assert(spliced(files(chunks)) =~= poured(chunks));
        }
    }
}

/// The output is the dump, but for the prefixes replayed and the rows
/// closed: the output files, put together in order, are the chunks in the
/// order in which they were written; each chunk is the unit it was written
/// for, with nothing added but the prefix of the last `INSERT` before a row
/// that opens a file, and nothing changed but the last byte of a row, to `;`;
/// and the units, put together in order, are the dump, up to the first error
/// where it holds one.
pub proof fn lemma_output_is_dump(max: nat, input: Seq<u8>)
    ensures
        ({
            let units = syntax::leading(input);
            let written = chunks(max, start(), units);
            &&& spliced(files(written)) == poured(written)
            &&& forall|i: int|
                0 <= i < units.len() ==> kept(
                    progress(max, start(), units.take(i)),
                    units[i],
                    (#[trigger] written[i]).bytes,
                )
            &&& syntax::written(units) == input.take(syntax::written(units).len() as int)
            &&& syntax::units(input) is Ok ==> syntax::written(units) == input
        }),
{
    let units = syntax::leading(input);
    let written = chunks(max, start(), units);
    syntax::lemma_leading(input);
    if syntax::units(input) is Ok {
        syntax::lemma_units_cover(input);
    }
    lemma_files_reassemble(written);
    assert forall|i: int| 0 <= i < units.len() implies kept(
        progress(max, start(), units.take(i)),
        units[i],
        (#[trigger] written[i]).bytes,
    ) by {
        lemma_chunk_shape(max, progress(max, start(), units.take(i)), units[i]);
    }
}

/// While the units written stay under the budget, they are written as they
/// are, all to one file.
proof fn lemma_under_budget(max: nat, units: Seq<Unit>)
    requires
        forall|i: int| 0 <= i < units.len() ==> (#[trigger] units[i]).bytes.len() > 0,
        syntax::written(units).len() < max,
    ensures
        progress(max, start(), units).total == syntax::written(units).len(),
        units.len() > 0 ==> contents(files(chunks(max, start(), units))) == seq![
            syntax::written(units),
        ],
        units.len() == 0 ==> files(chunks(max, start(), units)).len() == 0,
    decreases units.len(),
{
    if units.len() == 0 {
        assert(chunks(max, start(), units) =~= Seq::<Chunk>::empty());
    } else {
        let earlier = units.drop_last();
        let unit = units.last();
        let p = progress(max, start(), earlier);
        let cs = chunks(max, start(), units);
        assert(earlier.push(unit) =~= units);
        syntax::lemma_written_push(earlier, unit);
        lemma_under_budget(max, earlier);
        lemma_chunks_step(max, start(), earlier, unit);
        assert(cs.drop_last() =~= chunks(max, start(), earlier));
        lemma_files_step(cs);
        lemma_last_insert(max, start(), earlier);
        if earlier.len() == 0 {
            assert(replay(p, unit) =~= Seq::<u8>::empty());
        }
        assert(replay(p, unit) + unit.bytes =~= unit.bytes);
        assert(cs.last().bytes == unit.bytes);
        let before = contents(files(cs.drop_last()));
        if earlier.len() == 0 {
            assert(before =~= Seq::<Seq<u8>>::empty());
            assert(syntax::written(earlier) + unit.bytes =~= unit.bytes);
            assert(before.push(unit.bytes) =~= seq![syntax::written(units)]);
        } else {
            assert(before.drop_last().push(before.last() + unit.bytes) =~= seq![
                syntax::written(units),
            ]);
        }
    }
}

/// A budget that the dump stays under gives one output file, which is the
/// dump, byte for byte; and an empty dump gives no file.
pub proof fn lemma_one_file(max: nat, input: Seq<u8>)
    requires
        syntax::units(input) is Ok,
        input.len() < max,
    ensures
        ({
            let fs = contents(files(chunks(max, start(), syntax::units(input)->Ok_0)));
            if input.len() == 0 {
                fs.len() == 0
            } else {
                fs == seq![input]
            }
        }),
{
    let units = syntax::units(input)->Ok_0;
    syntax::lemma_units_cover(input);
    syntax::lemma_leading(input);
    lemma_under_budget(max, units);
    if units.len() == 0 {
        assert(contents(files(chunks(max, start(), units))) =~= Seq::<Seq<u8>>::empty());
    }
}

/// A file takes chunks until they use up the budget, and not one more:
/// every output file of a dump holds a chunk, was below the budget before its
/// last chunk, and, unless it is the last file, has reached the budget with
/// it. This holds of the files written up to the first error, too, where the
/// dump holds one.
pub proof fn lemma_budget(max: nat, input: Seq<u8>)
    requires
        max >= 1,
    ensures
        ({
            let fs = files(chunks(max, start(), syntax::leading(input)));
            &&& forall|i: int|
                0 <= i < fs.len() ==> (#[trigger] fs[i]).len() > 0 && fs[i].drop_last().flatten().len()
                    < max
            &&& forall|i: int| 0 <= i < fs.len() - 1 ==> (#[trigger] fs[i]).flatten().len() >= max
        }),
{
    syntax::lemma_leading(input);
    lemma_budget_kept(max, syntax::leading(input));
}

/// The invariant behind [`lemma_budget`]: it also ties the count that the
/// splitter keeps to the size of the last file.
proof fn lemma_budget_kept(max: nat, units: Seq<Unit>)
    requires
        max >= 1,
        forall|i: int| 0 <= i < units.len() ==> (#[trigger] units[i]).bytes.len() > 0,
    ensures
        ({
            let fs = files(chunks(max, start(), units));
            let total = progress(max, start(), units).total;
            &&& forall|i: int|
                0 <= i < fs.len() ==> (#[trigger] fs[i]).len() > 0 && fs[i].drop_last().flatten().len()
                    < max && fs[i].flatten().len() > 0
            &&& forall|i: int| 0 <= i < fs.len() - 1 ==> (#[trigger] fs[i]).flatten().len() >= max
            &&& fs.len() == 0 ==> total == 0
            &&& fs.len() > 0 ==> total == counted(max, 0, fs.last().flatten().len())
        }),
    decreases units.len(),
{
    broadcast use Seq::lemma_flatten_push;

    if units.len() > 0 {
        let earlier = units.drop_last();
        let cs = chunks(max, start(), units);
        lemma_budget_kept(max, earlier);
        assert(units.take(units.len() - 1) =~= earlier);
        assert(cs.drop_last() =~= chunks(max, start(), earlier)) by {
            assert forall|i: int| 0 <= i < earlier.len() implies cs[i] == chunk_at(
                max,
                start(),
                earlier,
                i,
            ) by {
                assert(units.take(i) =~= earlier.take(i));
            }
        }
        let before = files(cs.drop_last());
        let p = progress(max, start(), earlier);
        let bytes = cs.last().bytes;
        lemma_chunk_shape(max, p, units.last());
        assert(bytes.len() > 0);
        let fs = files(cs);
        if cs.last().opens || before.len() == 0 {
            seq![bytes].lemma_flatten_one_element();
            assert(seq![bytes].drop_last() =~= Seq::<Seq<u8>>::empty());
            assert forall|i: int| 0 <= i < fs.len() - 1 implies (#[trigger] fs[i]).flatten().len()
                >= max by {
                assert(fs[i] == before[i]);
            }
        } else {
            let last = before.last();
            assert(last.push(bytes).drop_last() =~= last);
            assert(fs.last() == last.push(bytes));
            assert forall|i: int| 0 <= i < fs.len() - 1 implies (#[trigger] fs[i]).flatten().len()
                >= max by {
                assert(fs[i] == before[i]);
            }
        }
    }
}

} // verus!
