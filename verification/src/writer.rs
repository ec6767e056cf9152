//! Where the chunks of a run go.
use vstd::prelude::*;

use crate::policy;
use crate::splitter::FileState;

verus! {

/// The bytes that each of `files` holds.
pub open spec fn held(files: Seq<Vec<u8>>) -> Seq<Seq<u8>> {
    Seq::new(files.len(), |i: int| files[i]@)
}

/// Puts the chunks of a run into output files, which it holds in memory.
/// Its model is the bytes of the files, in order.
pub struct Writer {
    files: Vec<Vec<u8>>,
}

impl View for Writer {
    type V = Seq<Seq<u8>>;

    closed spec fn view(&self) -> Seq<Seq<u8>> {
        held(self.files@)
    }
}

impl Writer {
    /// A writer that holds no file yet.
    pub fn new() -> (writer: Self)
        ensures
            writer@ == Seq::<Seq<u8>>::empty(),
    {
        let writer = Writer { files: Vec::new() };
        assert(writer@ =~= Seq::<Seq<u8>>::empty());
        writer
    }

    /// Writes `bytes`: to a new file where `state` says so or no file is
    /// open yet, and else behind what the last file holds.
    pub fn write(&mut self, state: FileState, bytes: Vec<u8>)
        ensures
            final(self)@ == policy::placed(old(self)@, state == FileState::New, bytes@),
    {
        let ghost before = self@;
        let ghost written = bytes@;
        let mut bytes = bytes;
        match state {
            FileState::New => {
                self.files.push(bytes);
                assert(self@ =~= before.push(written));
            },
            FileState::Continue => {
                match self.files.pop() {
                    Some(last) => {
                        let mut last = last;
                        last.append(&mut bytes);
                        self.files.push(last);
                        assert(self@ =~= before.drop_last().push(before.last() + written));
                    },
                    None => {
                        self.files.push(bytes);
                        assert(self@ =~= before.push(written));
                    },
                }
            },
        }
    }

    /// The files written, in order, each as the bytes it holds.
    pub fn files(self) -> (files: Vec<Vec<u8>>)
        ensures
            held(files@) == self@,
    {
        self.files
    }
}

} // verus!
