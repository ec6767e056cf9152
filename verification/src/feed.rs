//! Splitting a dump that arrives block by block.
use vstd::prelude::*;

use crate::delimit;
use crate::parser::Parser;
use crate::parser::TokenStream;
use crate::policy;
use crate::policy::Progress;
use crate::reader::Reader;
use crate::source::SliceSource;
use crate::splitter::Chunker;
use crate::splitter::FileState;
use crate::splitter::SplitterState;
use crate::syntax;
use crate::syntax::Unit;
use crate::syntax::UnitKind;
use crate::token_err::ErrorKind;
use crate::token_err::TokenErr;
use crate::tokenizer::Tokenizer;

verus! {

/// The units at the front of `s` that end by themselves, up to the first
/// unit that does not or cannot be read. They are the units that can be
/// written before it is known how the input goes on.
pub open spec fn ready(s: Seq<u8>) -> Seq<Unit>
    decreases s.len(),
{
    match syntax::unit(s) {
        Err(_) => Seq::empty(),
        Ok(u) => if delimit::delimited(u) {
            proof {
                syntax::lemma_unit_len(s);
            }
            seq![u] + ready(s.skip(u.bytes.len() as int))
        } else {
            Seq::empty()
        },
    }
}

/// The chunks that `pairs` stand for.
pub open spec fn events(pairs: Seq<(FileState, Vec<u8>)>) -> Seq<policy::Chunk> {
    Seq::new(
        pairs.len(),
        |i: int| policy::Chunk { opens: pairs[i].0 == FileState::New, bytes: pairs[i].1@ },
    )
}

/// Splits a dump that its caller reads and hands over block by block.
///
/// What has been handed over is split as far as it holds units that end by
/// themselves; the rest waits for the next block, or for the end of the dump.
/// Where a block leaves a unit unfinished, the feed waits until twice as much
/// is pending before it tries again, so that a unit that spans many blocks is
/// not read anew with every block. What the feed hands out in all does not
/// depend on where the blocks are cut ([`lemma_fed_is_whole`]). An error is
/// told at the end of the dump, since what looks like one may be a unit that
/// the next block completes.
pub struct Feed {
    /// The bytes handed over that have not been split yet.
    pending: Vec<u8>,
    /// How many bytes were left pending when the feed last split.
    waited: usize,
    chunker: Chunker,
}

/// The mathematical value of a feed.
pub struct FeedView {
    /// The bytes handed over that have not been split yet.
    pub pending: Seq<u8>,
    /// How many bytes were left pending when the feed last split.
    pub waited: nat,
    /// The byte budget of one output file.
    pub max: nat,
    /// What the feed remembers of the units it has seen.
    pub progress: Progress,
}

impl View for Feed {
    type V = FeedView;

    closed spec fn view(&self) -> FeedView {
        FeedView {
            pending: self.pending@,
            waited: self.waited as nat,
            max: self.chunker@.max,
            progress: self.chunker@.progress,
        }
    }
}

/// What a feed looks like after `units` at the front of its pending bytes
/// have been written.
pub open spec fn after(v: FeedView, units: Seq<Unit>) -> FeedView {
    FeedView {
        pending: v.pending.skip(syntax::written(units).len() as int),
        waited: (v.pending.len() - syntax::written(units).len()) as nat,
        max: v.max,
        progress: policy::progress(v.max, v.progress, units),
    }
}

/// Whether a feed that takes `block` splits what is pending then: it does
/// where that is twice as much as it left pending when it last split.
pub open spec fn due(v: FeedView, block: Seq<u8>) -> bool {
    v.pending.len() + block.len() >= 2 * v.waited
}

/// The units that a feed writes when it takes `block`.
pub open spec fn taken(v: FeedView, block: Seq<u8>) -> Seq<Unit> {
    if due(v, block) {
        ready(v.pending + block)
    } else {
        Seq::empty()
    }
}

/// What a feed looks like when it has taken `block`.
pub open spec fn fed_with(v: FeedView, block: Seq<u8>) -> FeedView {
    if due(v, block) {
        after(FeedView { pending: v.pending + block, ..v }, ready(v.pending + block))
    } else {
        FeedView { pending: v.pending + block, ..v }
    }
}

impl Feed {
    /// A feed at the start of a dump, for output files of `write` bytes.
    pub fn new(write: usize) -> (feed: Self)
        ensures
            feed@ == (FeedView {
                pending: Seq::empty(),
                waited: 0,
                max: write as nat,
                progress: policy::start(),
            }),
    {
        Self { pending: Vec::new(), waited: 0, chunker: Chunker::new(write) }
    }

    /// Splits the pending bytes as far as they go: to their end or the first
    /// error where the dump has `ended`, and else as far as their units end by
    /// themselves.
    fn drain(&mut self, ended: bool) -> (r: (Vec<(FileState, Vec<u8>)>, Option<TokenErr>))
        ensures
            ({
                let units = if ended {
                    syntax::leading(old(self)@.pending)
                } else {
                    ready(old(self)@.pending)
                };
                &&& events(r.0@) == policy::chunks(old(self)@.max, old(self)@.progress, units)
                &&& final(self)@ == after(old(self)@, units)
                &&& match syntax::units(old(self)@.pending) {
                    Err(kind) => if ended {
                        r.1 matches Some(e) && e.text@ == kind.message()
                    } else {
                        r.1 is None
                    },
                    Ok(_) => r.1 is None,
                }
            }),
    {
        let ghost s = self.pending@;
        let ghost max = self@.max;
        let ghost p = self@.progress;
        let ghost mut done: Seq<Unit> = Seq::empty();
        let mut parser = Parser::new(
            Tokenizer::new(Reader::new(SliceSource::new(self.pending.as_slice()))),
        );
        let mut chunks: Vec<(FileState, Vec<u8>)> = Vec::new();
        let mut consumed: usize = 0;
        let mut error: Option<TokenErr> = None;
        proof {
            assert(s.skip(0) =~= s);
            assert(events(chunks@) =~= policy::chunks(max, p, done));
            assert(done + syntax::leading(s) =~= syntax::leading(s));
            assert(done + ready(s) =~= ready(s));
            assert(Seq::<Unit>::empty() + syntax::units(s)->Ok_0 =~= syntax::units(s)->Ok_0);
        }
        loop
            invariant_except_break
                error is None,
                consumed == syntax::written(done).len(),
                consumed <= s.len(),
                parser.rest() == s.skip(consumed as int),
                ended ==> syntax::leading(s) == done + syntax::leading(parser.rest()),
                !ended ==> ready(s) == done + ready(parser.rest()),
                syntax::units(s) == syntax::followed(done, syntax::units(parser.rest())),
                events(chunks@) == policy::chunks(max, p, done),
                self.chunker@.progress == policy::progress(max, p, done),
            invariant
                s == old(self)@.pending,
                self.pending@ == s,
                self.chunker@.max == max,
                max == old(self)@.max,
                p == old(self)@.progress,
            ensures
                consumed == syntax::written(done).len(),
                consumed <= s.len(),
                done == (if ended {
                    syntax::leading(s)
                } else {
                    ready(s)
                }),
                events(chunks@) == policy::chunks(max, p, done),
                self.chunker@.progress == policy::progress(max, p, done),
                match syntax::units(s) {
                    Err(kind) => if ended {
                        error matches Some(e) && e.text@ == kind.message()
                    } else {
                        error is None
                    },
                    Ok(_) => error is None,
                },
            decreases s.len() - consumed,
        {
            let ghost here = parser.rest();
            proof {
                syntax::lemma_units_step(here, done);
                syntax::lemma_unit_len(here);
                assert(done + Seq::<Unit>::empty() =~= done);
            }
            let unit = match parser.token_stream() {
                Ok(unit) => unit,
                Err(e) => {
                    if ended {
                        error = Some(e);
                    }
                    break ;
                },
            };
            let last = if ended {
                unit.is_end()
            } else {
                !unit.delimited()
            };
            if last {
                break ;
            }
            let ghost u = unit@;
            let size = unit.size();
            proof {
                assert(syntax::unit(here) == Ok::<Unit, ErrorKind>(u));
                assert(here.len() == s.len() - consumed);
                assert(size <= here.len());
                assert(s.len() == self.pending.len());
                syntax::lemma_written_push(done, u);
                policy::lemma_chunks_step(max, p, done, u);
                crate::parser::lemma_take_skip(s, consumed as int, size as int);
                assert(done + (seq![u] + syntax::leading(here.skip(size as int))) =~= done.push(u)
                    + syntax::leading(here.skip(size as int)));
                assert(done + (seq![u] + ready(here.skip(size as int))) =~= done.push(u) + ready(
                    here.skip(size as int),
                ));
            }
            consumed = consumed + size;
            match self.chunker.chunk(unit) {
                SplitterState::Chunk(state, bytes) => {
                    chunks.push((state, bytes));
                },
                _ => {},
            }
            proof {
                done = done.push(u);
                assert(events(chunks@) =~= policy::chunks(max, p, done));
            }
        }
        let rest = self.pending.split_off(consumed);
        self.waited = rest.len();
        self.pending = rest;
        proof {
            assert(self.pending@ =~= s.skip(consumed as int));
        }
        (chunks, error)
    }

    /// Takes the next block of the dump and returns what can be written by
    /// now: the chunks for the units that end by themselves, in order, each
    /// with the state that says whether it opens a new output file. Where the
    /// feed waits for more, it returns nothing.
    pub fn feed(&mut self, block: Vec<u8>) -> (chunks: Vec<(FileState, Vec<u8>)>)
        ensures
            events(chunks@) == policy::chunks(
                old(self)@.max,
                old(self)@.progress,
                taken(old(self)@, block@),
            ),
            final(self)@ == fed_with(old(self)@, block@),
    {
        let mut block = block;
        self.pending.append(&mut block);
        if self.pending.len() / 2 >= self.waited {
            let (chunks, _) = self.drain(false);
            chunks
        } else {
            let chunks: Vec<(FileState, Vec<u8>)> = Vec::new();
            proof {
                assert(events(chunks@) =~= policy::chunks(
                    old(self)@.max,
                    old(self)@.progress,
                    Seq::<Unit>::empty(),
                ));
            }
            chunks
        }
    }

    /// Takes note that the dump has ended and returns the chunks for what
    /// was pending, up to its end or the first error, and that error.
    pub fn finish(&mut self) -> (r: (Vec<(FileState, Vec<u8>)>, Option<TokenErr>))
        ensures
            ({
                let units = syntax::leading(old(self)@.pending);
                &&& events(r.0@) == policy::chunks(old(self)@.max, old(self)@.progress, units)
                &&& final(self)@ == after(old(self)@, units)
                &&& match syntax::units(old(self)@.pending) {
                    Err(kind) => r.1 matches Some(e) && e.text@ == kind.message(),
                    Ok(_) => r.1 is None,
                }
            }),
    {
        self.drain(true)
    }
}

/// The units that are ready are units of the input however it goes on:
/// the units of an input with more input behind it are the units that are
/// ready in it, and then the units of what they leave with that behind it; and
/// an error is met in the one just where it is met in the other.
pub proof fn lemma_ready_stays(s: Seq<u8>, t: Seq<u8>)
    ensures
        ({
            let left = s.skip(syntax::written(ready(s)).len() as int) + t;
            &&& syntax::written(ready(s)).len() <= s.len()
            &&& syntax::leading(s + t) == ready(s) + syntax::leading(left)
            &&& syntax::units(s + t) == syntax::followed(ready(s), syntax::units(left))
        }),
    decreases s.len(),
{
    let left = s.skip(syntax::written(ready(s)).len() as int) + t;
    syntax::lemma_unit_len(s);
    if syntax::unit(s) is Ok && delimit::delimited(syntax::unit(s)->Ok_0) {
        let u = syntax::unit(s)->Ok_0;
        let n = u.bytes.len() as int;
        let others = ready(s.skip(n));
        let size = syntax::written(others).len() as int;
        assert((s + t).take(n) =~= s.take(n));
        delimit::lemma_unit_agree(s, s + t);
        assert((s + t).skip(n) =~= s.skip(n) + t);
        lemma_ready_stays(s.skip(n), t);
        assert((seq![u] + others).skip(1) =~= others);
        assert(syntax::written(seq![u] + others) == u.bytes + syntax::written(others));
        assert(s.skip(n).skip(size) =~= s.skip(n + size));
        assert(seq![u] + (others + syntax::leading(left)) =~= ready(s) + syntax::leading(left));
        if let Ok(x) = syntax::units(left) {
            assert(seq![u] + (others + x) =~= ready(s) + x);
        }
    } else {
        assert(s.skip(0) =~= s);
        assert(ready(s) + syntax::leading(left) =~= syntax::leading(left));
        if let Ok(x) = syntax::units(left) {
            assert(ready(s) + x =~= x);
        }
    }
}

/// The chunks that a feed hands out when it takes `blocks`, one after the
/// other, and the dump ends behind them.
pub open spec fn fed(v: FeedView, blocks: Seq<Seq<u8>>) -> Seq<policy::Chunk>
    decreases blocks.len(),
{
    if blocks.len() == 0 {
        policy::chunks(v.max, v.progress, syntax::leading(v.pending))
    } else {
        policy::chunks(v.max, v.progress, taken(v, blocks[0])) + fed(
            fed_with(v, blocks[0]),
            blocks.skip(1),
        )
    }
}

/// What is pending in a feed when it has taken `blocks`, one after the
/// other.
pub open spec fn waiting(v: FeedView, blocks: Seq<Seq<u8>>) -> Seq<u8>
    decreases blocks.len(),
{
    if blocks.len() == 0 {
        v.pending
    } else {
        waiting(fed_with(v, blocks[0]), blocks.skip(1))
    }
}

/// How a dump is cut into blocks makes no difference: the chunks that a feed
/// hands out for the blocks and for the end of the dump are the chunks of the
/// whole dump, and the end of the dump meets an error just where the whole
/// dump holds one.
pub proof fn lemma_fed_is_whole(v: FeedView, blocks: Seq<Seq<u8>>)
    ensures
        fed(v, blocks) == policy::chunks(v.max, v.progress, syntax::leading(v.pending + blocks.flatten())),
        syntax::units(waiting(v, blocks)) is Err <==> syntax::units(v.pending + blocks.flatten())
            is Err,
        syntax::units(waiting(v, blocks)) matches Err(kind) ==> syntax::units(
            v.pending + blocks.flatten(),
        ) == Err::<Seq<Unit>, ErrorKind>(kind),
    decreases blocks.len(),
{
    if blocks.len() == 0 {
        assert(v.pending + blocks.flatten() =~= v.pending);
    } else {
        let first = blocks[0];
        let others = blocks.skip(1);
        let units = taken(v, first);
        let next = fed_with(v, first);
        assert(blocks.flatten() =~= first + others.flatten());
        assert(v.pending + blocks.flatten() =~= (v.pending + first) + others.flatten());
        lemma_fed_is_whole(next, others);
        if due(v, first) {
            lemma_ready_stays(v.pending + first, others.flatten());
        } else {
            assert(units + syntax::leading(next.pending + others.flatten()) =~= syntax::leading(
                next.pending + others.flatten(),
            ));
            if let Ok(x) = syntax::units(next.pending + others.flatten()) {
                assert(units + x =~= x);
            }
        }
        policy::lemma_chunks_concat(
            v.max,
            v.progress,
            units,
            syntax::leading(next.pending + others.flatten()),
        );
    }
}

} // verus!
