//! The splitter: turns the statement units of a dump into chunks of output
//! files.
use vstd::prelude::*;

use crate::ascii;
use crate::parser::Parser;
use crate::parser::TokenStream;
use crate::policy;
use crate::policy::Progress;
use crate::reader::Reader;
use crate::source::ByteSource;
use crate::syntax;
use crate::syntax::UnitKind;
use crate::token_err::TokenErr;
use crate::tokenizer::Tokenizer;
use crate::writer;
use crate::writer::Writer;

verus! {

/// What a splitter is made from.
pub struct SplitterSettings<S: ByteSource> {
    /// The byte budget of one output file.
    pub write: usize,
    /// The dump to split.
    pub file: S,
}

/// Whether a chunk opens a new output file or goes on in the current one.
#[derive(Debug, PartialEq, Eq, Clone, Copy, Structural)]
pub enum FileState {
    New,
    Continue,
}

impl FileState {
    /// The name of this state.
    pub fn to_string(&self) -> (name: String)
        ensures
            name@ == (match *self {
                FileState::New => "New"@,
                FileState::Continue => "Continue"@,
            }),
    {
        match self {
            FileState::New => "New".to_string(),
            FileState::Continue => "Continue".to_string(),
        }
    }
}

/// One step of a run.
pub enum SplitterState {
    /// The dump is malformed; the run is over.
    SyntaxErr(TokenErr),
    /// Bytes to write, to a new output file or to the current one.
    Chunk(FileState, Vec<u8>),
    /// The dump has been read to its end.
    Done,
}

/// The state that `total` bytes in the current file give the next chunk.
pub open spec fn state_at(total: nat) -> FileState {
    if total == 0 {
        FileState::New
    } else {
        FileState::Continue
    }
}

/// Decides, unit by unit, what is written and where a new output file
/// begins.
pub struct Chunker {
    total_bytes: usize,
    max_write_size: usize,
    last_insert: Vec<u8>,
}

/// The mathematical value of a chunker.
pub struct ChunkerView {
    /// The byte budget of one output file.
    pub max: nat,
    /// What the chunker remembers of the units it has seen.
    pub progress: Progress,
}

impl View for Chunker {
    type V = ChunkerView;

    closed spec fn view(&self) -> ChunkerView {
        ChunkerView {
            max: self.max_write_size as nat,
            progress: Progress {
                total: self.total_bytes as nat,
                last_insert: self.last_insert@,
            },
        }
    }
}

impl Chunker {
    /// A chunker at the start of a run, for output files of
    /// `max_write_size` bytes.
    pub fn new(max_write_size: usize) -> (chunker: Self)
        ensures
            chunker@ == (ChunkerView { max: max_write_size as nat, progress: policy::start() }),
    {
        Self { total_bytes: 0, max_write_size, last_insert: Vec::new() }
    }

    fn file_state(&self, starting_total: usize) -> (state: FileState)
        ensures
            state == state_at(starting_total as nat),
    {
        if starting_total == 0 {
            FileState::New
        } else {
            FileState::Continue
        }
    }

    /// Counts `tokens` into the current file and hands them out as a chunk.
    fn send(&mut self, tokens: Vec<u8>, starting_total: usize) -> (r: SplitterState)
        requires
            old(self)@.progress.total == starting_total,
        ensures
            r matches SplitterState::Chunk(state, bytes) && state == state_at(starting_total as nat)
                && bytes@ == tokens@,
            final(self)@ == (ChunkerView {
                progress: Progress {
                    total: policy::counted(old(self)@.max, starting_total as nat, tokens@.len()),
                    ..old(self)@.progress
                },
                ..old(self)@
            }),
    {
        self.total_bytes = match self.total_bytes.checked_add(tokens.len()) {
            Some(total) => if self.reached_limit(total) {
                0
            } else {
                total
            },
            None => 0,
        };
        SplitterState::Chunk(self.file_state(starting_total), tokens)
    }

    fn reached_limit(&self, total: usize) -> (r: bool)
        ensures
            r == policy::reached_limit(self@.max, total as nat),
    {
        total >= self.max_write_size
    }

    /// Puts the prefix of the last `INSERT` behind `chunk`.
    fn copy_last_insert(&self, chunk: &mut Vec<u8>)
        ensures
            final(chunk)@ == old(chunk)@ + self@.progress.last_insert,
    {
        let mut prefix = self.last_insert.clone();
        chunk.append(&mut prefix);
    }

    /// Makes `;` the last byte of `chunk`.
    fn close_values_tuple(&self, chunk: &mut Vec<u8>)
        ensures
            final(chunk)@ == policy::closed(old(chunk)@),
    {
        if chunk.len() > 0 {
            let len = chunk.len() - 1;
            chunk[len] = ascii::SEMICOLON;
        }
    }

    /// Says what to write for `unit`, and counts it into the current file.
    /// For the end of the input nothing is written and nothing changes.
    pub fn chunk(&mut self, unit: TokenStream) -> (r: SplitterState)
        ensures
            if unit@.kind == UnitKind::End {
                r is Done && final(self)@ == old(self)@
            } else {
                &&& r matches SplitterState::Chunk(state, bytes)
                &&& state == state_at(old(self)@.progress.total)
                &&& bytes@ == policy::chunk(old(self)@.max, old(self)@.progress, unit@)
                &&& final(self)@ == (ChunkerView {
                    max: old(self)@.max,
                    progress: policy::advance(old(self)@.max, old(self)@.progress, unit@),
                })
            },
    {
        let starting_total = self.total_bytes;
        match unit {
            TokenStream::Insert(insert_with_values, insert_stmt) => {
                self.last_insert = insert_stmt;
                assert(Seq::<u8>::empty() + insert_with_values@ =~= insert_with_values@);
                self.send(insert_with_values, starting_total)
            },
            TokenStream::ValuesTuple(tokens) => {
                let mut tokens = tokens;
                let mut ret: Vec<u8> = Vec::new();
                if starting_total == 0 {
                    self.copy_last_insert(&mut ret);
                }
                assert(ret@ =~= policy::replay(old(self)@.progress, unit@));
                ret.append(&mut tokens);
                let reached = match starting_total.checked_add(ret.len()) {
                    Some(total) => self.reached_limit(total),
                    None => true,
                };
                if reached {
                    self.close_values_tuple(&mut ret)
                }
                self.send(ret, starting_total)
            },
            TokenStream::Block(tokens) => {
                assert(Seq::<u8>::empty() + tokens@ =~= tokens@);
                self.send(tokens, starting_total)
            },
            TokenStream::Comment(tokens) | TokenStream::SpaceOrLineFeed(tokens) => {
                assert(Seq::<u8>::empty() + tokens@ =~= tokens@);
                self.send(tokens, starting_total)
            },
            TokenStream::End => SplitterState::Done,
        }
    }
}

/// Cuts a dump into chunks, each below a byte budget where a statement unit
/// allows it, such that every output file is a script of its own.
pub struct Splitter<S: ByteSource> {
    parser: Parser<S>,
    chunker: Chunker,
}

/// The mathematical value of a splitter.
pub struct SplitterView {
    /// The input that has not been split yet.
    pub rest: Seq<u8>,
    /// The byte budget of one output file.
    pub max: nat,
    /// What the splitter remembers of the units it has seen.
    pub progress: Progress,
}

impl<S: ByteSource> View for Splitter<S> {
    type V = SplitterView;

    closed spec fn view(&self) -> SplitterView {
        SplitterView {
            rest: self.parser.rest(),
            max: self.chunker@.max,
            progress: self.chunker@.progress,
        }
    }
}

impl<S: ByteSource> Splitter<S> {
    /// A splitter at the start of the dump.
    pub fn new(settings: SplitterSettings<S>) -> (splitter: Self)
        ensures
            splitter@ == (SplitterView {
                rest: settings.file.remaining(),
                max: settings.write as nat,
                progress: policy::start(),
            }),
    {
        let tokenizer = Tokenizer::new(Reader::new(settings.file));
        Self { parser: Parser::new(tokenizer), chunker: Chunker::new(settings.write) }
    }

    /// Reads the next statement unit and says what to write for it.
    pub fn process(&mut self) -> (r: SplitterState)
        ensures
            match syntax::unit(old(self)@.rest) {
                Err(kind) => r matches SplitterState::SyntaxErr(e) && e.text@ == kind.message()
                    && final(self)@.max == old(self)@.max && final(self)@.progress == old(self)@.progress,
                Ok(unit) => if unit.kind == UnitKind::End {
                    r is Done && final(self)@ == old(self)@
                } else {
                    &&& r matches SplitterState::Chunk(state, bytes)
                    &&& state == state_at(old(self)@.progress.total)
                    &&& bytes@ == policy::chunk(old(self)@.max, old(self)@.progress, unit)
                    &&& final(self)@ == (SplitterView {
                        rest: old(self)@.rest.skip(unit.bytes.len() as int),
                        max: old(self)@.max,
                        progress: policy::advance(old(self)@.max, old(self)@.progress, unit),
                    })
                },
            },
    {
        let token = match self.parser.token_stream() {
            Ok(token) => token,
            Err(e) => {
                return SplitterState::SyntaxErr(e);
            },
        };
        proof {
            assert(old(self)@.rest.skip(0) =~= old(self)@.rest);
        }
        self.chunker.chunk(token)
    }

    /// Splits what is left of the dump and returns the output files, in
    /// order, each as the bytes it holds.
    pub fn split(&mut self) -> (r: Result<Vec<Vec<u8>>, TokenErr>)
        ensures
            match syntax::units(old(self)@.rest) {
                Ok(units) => r matches Ok(files) && writer::held(files@) == policy::contents(
                    policy::files(policy::chunks(old(self)@.max, old(self)@.progress, units)),
                ),
                Err(kind) => r matches Err(e) && e.text@ == kind.message(),
            },
    {
        let ghost input = self@.rest;
        let ghost max = self@.max;
        let ghost p = self@.progress;
        let ghost mut done: Seq<syntax::Unit> = Seq::empty();
        let mut files = Writer::new();
        proof {
            assert(Seq::<syntax::Unit>::empty() + syntax::units(input)->Ok_0 =~= syntax::units(
                input,
            )->Ok_0);
            assert(files@ =~= policy::contents(policy::files(policy::chunks(max, p, done))));
        }
        loop
            invariant
                input == old(self)@.rest,
                max == old(self)@.max,
                p == old(self)@.progress,
                self@.max == max,
                self@.progress == policy::progress(max, p, done),
                syntax::units(input) == syntax::followed(done, syntax::units(self@.rest)),
                files@ == policy::contents(policy::files(policy::chunks(max, p, done))),
            decreases self@.rest.len(),
        {
            let ghost here = self@.rest;
            proof {
                syntax::lemma_units_step(here, done);
                syntax::lemma_unit_len(here);
            }
            match self.process() {
                SplitterState::SyntaxErr(e) => {
                    return Err(e);
                },
                SplitterState::Done => {
                    return Ok(files.files());
                },
                SplitterState::Chunk(state, bytes) => {
                    let ghost unit = syntax::unit(here)->Ok_0;
                    proof {
                        policy::lemma_chunks_step(max, p, done, unit);
                        policy::lemma_files_step(policy::chunks(max, p, done.push(unit)));
                        assert(policy::chunks(max, p, done.push(unit)).drop_last() =~= policy::chunks(
                            max,
                            p,
                            done,
                        ));
                    }
                    files.write(state, bytes);
                    proof {
                        done = done.push(unit);
                    }
                },
            }
        }
    }
}

} // verus!
