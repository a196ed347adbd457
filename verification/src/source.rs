//! The byte source protocol that the chunk engine is built on, and an
//! in-memory source.
//!
//! A source hands out a borrowed window of the bytes it currently holds
//! (`fill_buf`), and drops bytes from the front of that window once the
//! caller is done with them (`consume`).  End of input is a result of its
//! own, never an empty window.
use vstd::prelude::*;
use crate::search::is_prefix;

verus! {

/// An opaque failure of the device behind a source.
#[derive(Clone, Copy, Debug, PartialEq, Eq, Structural)]
pub struct IoError {
    /// The device's own code for what went wrong.
    pub code: i32,
}

/// Why a `fill_buf` handed out no window.
#[derive(Clone, Copy, Debug, PartialEq, Eq, Structural)]
pub enum FillError {
    /// The stream is exhausted: no byte is left and none will ever arrive.
    EndOfInput,
    /// The device failed.
    Io(IoError),
}

/// What a `fill_buf` result says, with the window taken as a sequence.
pub open spec fn outcome(r: Result<&[u8], FillError>) -> Result<Seq<u8>, FillError> {
    match r {
        Ok(window) => Ok(window@),
        Err(e) => Err(e),
    }
}

/// A provider of byte windows with fill/consume semantics.
pub trait Source {
    /// The source is in a consistent state.  A source that does not say
    /// when it is cannot be used from verified code.
    open spec fn inv(&self) -> bool {
        false
    }

    /// Every byte of the stream that has not been consumed yet, through the
    /// end of the stream.
    open spec fn remaining(&self) -> Seq<u8> {
        Seq::empty()
    }

    /// The bytes currently on offer: the window that the last `fill_buf`
    /// handed out, less what has been consumed since.
    open spec fn window(&self) -> Seq<u8> {
        Seq::empty()
    }

    /// A bound on how many more empty windows the source hands out before
    /// something is consumed from it.
    open spec fn patience(&self) -> nat {
        0
    }

    /// The source never reports a device failure.
    open spec fn reliable(&self) -> bool {
        false
    }

    /// The failure that the device reported last, if it has reported one.
    open spec fn last_failure(&self) -> Option<IoError> {
        None
    }

    /// Makes the bytes that the source currently holds available, reading
    /// from the device once if it holds none.  The stream itself does not
    /// move.  An exhausted stream gives `EndOfInput`, never an empty
    /// window; an empty window of a live stream uses up patience.  A
    /// failure of the device is handed out as the device reported it.
    fn fill_buf(&mut self) -> (r: Result<&[u8], FillError>)
        requires
            old(self).inv(),
        ensures
            final(self).inv(),
            final(self).remaining() == old(self).remaining(),
            final(self).reliable() == old(self).reliable(),
            final(self).patience() <= old(self).patience(),
            match r {
                Ok(view) => {
                    &&& view@ == final(self).window()
                    &&& is_prefix(view@, old(self).remaining())
                    &&& old(self).remaining().len() > 0
                    &&& view@.len() == 0 ==> final(self).patience() < old(self).patience()
                },
                Err(FillError::EndOfInput) => old(self).remaining().len() == 0,
                Err(FillError::Io(e)) => {
                    &&& !old(self).reliable()
                    &&& final(self).last_failure() == Some(e)
                },
            },
    ;

    /// The window on offer, without touching the device.
    fn peek(&self) -> (view: &[u8])
        requires
            self.inv(),
        ensures
            view@ == self.window(),
    ;

    /// Drops `n` bytes from the front of the window on offer.
    fn consume(&mut self, n: usize)
        requires
            old(self).inv(),
            n <= old(self).window().len(),
        ensures
            final(self).inv(),
            final(self).remaining() == old(self).remaining().skip(n as int),
            is_prefix(old(self).window().skip(n as int), final(self).window()),
            final(self).reliable() == old(self).reliable(),
            n == 0 ==> final(self).patience() <= old(self).patience(),
    ;
}

/// A source over bytes held in memory.  It offers everything that is left
/// in one window, and never fails.
pub struct MemReader {
    data: Vec<u8>,
    pos: usize,
}

impl MemReader {
    /// A reader positioned at the start of `data`.
    pub fn new(data: Vec<u8>) -> (reader: MemReader)
        ensures
            reader.inv(),
            reader.remaining() == data@,
            reader.reliable(),
    {
        let reader = MemReader { data, pos: 0 };
        assert(reader.data@.skip(0) =~= reader.data@);
        reader
    }

    /// The bytes from the current position on.
    fn rest(&self) -> (view: &[u8])
        requires
            self.inv(),
        ensures
            view@ == self.remaining(),
    {
        let view = vstd::slice::slice_subrange(self.data.as_slice(), self.pos, self.data.len());
        assert(view@ =~= self.data@.skip(self.pos as int));
        view
    }
}

impl Source for MemReader {
    closed spec fn inv(&self) -> bool {
        self.pos <= self.data@.len()
    }

    closed spec fn remaining(&self) -> Seq<u8> {
        self.data@.skip(self.pos as int)
    }

    closed spec fn window(&self) -> Seq<u8> {
        self.data@.skip(self.pos as int)
    }

    open spec fn patience(&self) -> nat {
        0
    }

    open spec fn reliable(&self) -> bool {
        true
    }

    open spec fn last_failure(&self) -> Option<IoError> {
        None
    }

    fn fill_buf(&mut self) -> (r: Result<&[u8], FillError>)
        ensures
            outcome(r) == (if old(self).remaining().len() == 0 {
                Err(FillError::EndOfInput)
            } else {
                Ok(old(self).remaining())
            }),
    {
        if self.pos >= self.data.len() {
            Err(FillError::EndOfInput)
        } else {
            assert(self.remaining().subrange(0, self.remaining().len() as int) =~= self.remaining());
            Ok(self.rest())
        }
    }

    fn peek(&self) -> (view: &[u8]) {
        self.rest()
    }

    fn consume(&mut self, n: usize)
        ensures
            final(self).window() == old(self).window().skip(n as int),
    {
        let len: usize = self.data.len();
        assert(self.window().len() == len - self.pos);
        self.pos = self.pos + n;
        assert(self.data@.skip(self.pos as int) =~= old(self).data@.skip(old(self).pos as int).skip(
            n as int,
        ));
        proof {
            let left = old(self).window().skip(n as int);
            assert(self.window().subrange(0, left.len() as int) =~= left);
        }
    }
}

} // verus!
