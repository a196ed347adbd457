//! The chunk engine: a buffer that breaks a byte stream only after a full
//! occurrence of a boundary sequence, or at the end of the stream.
use vstd::prelude::*;
use crate::search::{
    contains, find, first_at, is_prefix, lemma_first_in_prefix, lemma_match_in_part,
    lemma_occurs_in_prefix, lemma_occurs_in_suffix, lemma_seam, matches_at, occurs,
};
use crate::source::{outcome, FillError, IoError, Source};

verus! {

/// One step of topping up: moves bytes of `view` to the end of `buffer`
/// and says how many it took and whether the buffer now holds the
/// boundary.
///
/// Where `view` holds the boundary, the bytes through the end of its first
/// occurrence are taken.  Otherwise all of `view` is taken, and only the
/// stretch around the seam between old and new bytes is searched: the
/// boundary may have arrived in pieces.
pub fn absorb(buffer: &mut Vec<u8>, view: &[u8], boundary: &[u8]) -> (step: (usize, bool))
    requires
        boundary@.len() >= 1,
        !occurs(old(buffer)@, boundary@),
    ensures
        step.0 <= view@.len(),
        final(buffer)@ == old(buffer)@ + view@.take(step.0 as int),
        step.1 == occurs(final(buffer)@, boundary@),
        occurs(view@, boundary@) ==> step.1 && first_at(
            view@,
            boundary@,
            step.0 - boundary@.len(),
        ),
        !occurs(view@, boundary@) ==> step.0 == view@.len(),
{
    let held: usize = buffer.len();
    let width: usize = boundary.len();
    let offered: usize = view.len();
    match find(view, boundary) {
        Some(at) => {
            let taken: usize = at + width;
            buffer.extend_from_slice(vstd::slice::slice_subrange(view, 0, taken));
            proof {
                let piece = view@.take(taken as int);
                assert(buffer@ =~= old(buffer)@ + piece);
                assert(piece.subrange(at as int, at + width) =~= view@.subrange(
                    at as int,
                    at + width,
                ));
                assert(matches_at(piece, boundary@, at as int));
                lemma_match_in_part(buffer@, boundary@, held as int, buffer@.len() as int, at as int);
                assert(buffer@.subrange(held as int, buffer@.len() as int) =~= piece);
                assert(matches_at(buffer@, boundary@, held + at));
            }
            (taken, true)
        },
        None => {
            buffer.extend_from_slice(view);
            let grown: usize = buffer.len();
            let from: usize = if held >= width {
                held - (width - 1)
            } else {
                0
            };
            let to: usize = if grown - held >= width {
                held + (width - 1)
            } else {
                grown
            };
            proof {
                assert(view@.take(view@.len() as int) =~= view@);
                assert(buffer@ =~= old(buffer)@ + view@);
                lemma_seam(old(buffer)@, view@, boundary@, from as int, to as int);
            }
            let seam = vstd::slice::slice_subrange(buffer.as_slice(), from, to);
            (offered, contains(seam, boundary))
        },
    }
}

/// Drops the first `n` bytes of `buffer` and moves the rest to the front,
/// in the storage that the buffer has.
pub fn drop_front(buffer: &mut Vec<u8>, n: usize)
    requires
        n <= old(buffer)@.len(),
    ensures
        final(buffer)@ == old(buffer)@.skip(n as int),
{
    let held: usize = buffer.len();
    let keeping: usize = held - n;
    let mut i: usize = 0;
    while i < keeping
        invariant
            n + keeping == held,
            buffer@.len() == held == old(buffer)@.len(),
            i <= keeping,
            forall|j: int| 0 <= j < i ==> buffer@[j] == old(buffer)@[j + n],
            forall|j: int| i <= j < buffer@.len() ==> buffer@[j] == old(buffer)@[j],
        decreases keeping - i,
    {
        let byte: u8 = buffer[i + n];
        buffer[i] = byte;
        i = i + 1;
    }
    buffer.truncate(keeping);
    assert(buffer@ =~= old(buffer)@.skip(n as int));
}

/// What a top-up does after one answer of its source.
#[derive(Clone, Copy, Debug, PartialEq, Eq, Structural)]
pub enum Progress {
    /// The boundary has not arrived yet: ask the source again.
    More,
    /// The buffer holds the boundary: it is the next chunk.
    Chunk,
    /// The stream has ended with bytes in the buffer: they are the last
    /// chunk.
    LastChunk,
    /// No chunk can be handed out, for the reason given.
    Stop(FillError),
}

/// One round of topping up: takes in what the source answered to a fill,
/// and says how many bytes to consume from the source and how to go on.
///
/// A window is absorbed.  The end of the input makes a last chunk of what
/// is buffered, and is handed on where nothing is.  A failure is handed on
/// as it is.  Nothing but a window changes the buffer.
pub fn digest(buffer: &mut Vec<u8>, answer: Result<&[u8], FillError>, boundary: &[u8]) -> (round: (
    usize,
    Progress,
))
    requires
        boundary@.len() >= 1,
        !occurs(old(buffer)@, boundary@),
    ensures
        match answer {
            Ok(view) => {
                &&& round.0 <= view@.len()
                &&& final(buffer)@ == old(buffer)@ + view@.take(round.0 as int)
                &&& occurs(view@, boundary@) ==> first_at(
                    view@,
                    boundary@,
                    round.0 - boundary@.len(),
                )
                &&& !occurs(view@, boundary@) ==> round.0 == view@.len()
                &&& round.1 == (if occurs(final(buffer)@, boundary@) {
                    Progress::Chunk
                } else {
                    Progress::More
                })
            },
            Err(FillError::EndOfInput) => {
                &&& round.0 == 0
                &&& final(buffer)@ == old(buffer)@
                &&& round.1 == (if old(buffer)@.len() > 0 {
                    Progress::LastChunk
                } else {
                    Progress::Stop(FillError::EndOfInput)
                })
            },
            Err(FillError::Io(e)) => {
                &&& round.0 == 0
                &&& final(buffer)@ == old(buffer)@
                &&& round.1 == Progress::Stop(FillError::Io(e))
            },
        },
{
    match answer {
        Ok(view) => {
            let step = absorb(buffer, view, boundary);
            if step.1 {
                (step.0, Progress::Chunk)
            } else {
                (step.0, Progress::More)
            }
        },
        Err(FillError::EndOfInput) => {
            if buffer.len() > 0 {
                (0, Progress::LastChunk)
            } else {
                (0, Progress::Stop(FillError::EndOfInput))
            }
        },
        Err(e) => (0, Progress::Stop(e)),
    }
}

/// `chunk` breaks at `seam` with the boundary late in it: what lies before
/// the seam holds no boundary, and what lies after it either holds none,
/// so that the boundary lies across the seam, or ends with the first one
/// that it holds.
pub open spec fn seamed(chunk: Seq<u8>, seam: int, boundary: Seq<u8>) -> bool {
    &&& 0 <= seam <= chunk.len()
    &&& !occurs(chunk.take(seam), boundary)
    &&& occurs(chunk.skip(seam), boundary) ==> first_at(
        chunk.skip(seam),
        boundary,
        chunk.len() - seam - boundary.len(),
    )
}

/// The boundary comes late in `chunk`: the chunk has a seam at `from` or
/// after it at which it breaks as [`seamed`] says.  This is the shape of a
/// chunk that was put together from windows: the seam is where the last
/// window begins.
pub open spec fn late_boundary(chunk: Seq<u8>, from: int, boundary: Seq<u8>) -> bool {
    exists|seam: int| from <= seam && #[trigger] seamed(chunk, seam, boundary)
}

/// Where a chunk engine stands between two calls.
#[derive(Clone, Copy, Debug, PartialEq, Eq, Structural)]
pub enum EngineState {
    /// Nothing is buffered and nothing is on offer.
    Empty,
    /// Bytes are buffered, the boundary is not among them yet.
    Accumulating,
    /// A chunk that holds the boundary is on offer: the buffered bytes or,
    /// where nothing is buffered, the window of the source itself.
    Ready,
    /// The source has signalled the end of the stream; the buffered bytes
    /// are the last chunk, and hold no boundary.
    Exhausted,
}

/// A buffer which breaks chunks only after the specified boundary
/// sequence, or at the end of the stream, but nowhere else.
pub struct ChunkBuffer<'a, T: Source> {
    input: &'a mut T,
    boundary: Vec<u8>,
    buffer: Vec<u8>,
    state: EngineState,
}

impl<'a, T: Source> ChunkBuffer<'a, T> {
    /// The boundary sequence that ends a chunk.
    pub closed spec fn boundary(&self) -> Seq<u8> {
        self.boundary@
    }

    /// The bytes that the engine has taken over from its source and not
    /// handed on yet.
    pub closed spec fn buffered(&self) -> Seq<u8> {
        self.buffer@
    }

    /// The source as it is now.
    pub open spec fn source(&self) -> T {
        *self.borrow()
    }

    /// The borrow of the source that the engine holds.
    pub closed spec fn borrow(&self) -> &'a mut T {
        self.input
    }

    /// Where the engine stands.
    pub closed spec fn phase(&self) -> EngineState {
        self.state
    }

    /// A chunk is on offer: the next `fill_buf` hands it out again and
    /// touches nothing.
    pub open spec fn presenting(&self) -> bool {
        self.phase() == EngineState::Ready || self.phase() == EngineState::Exhausted
    }

    /// The state of the engine fits what it holds.
    pub open spec fn well_formed(&self) -> bool {
        &&& self.boundary().len() >= 1
        &&& self.source().inv()
        &&& match self.phase() {
            EngineState::Empty => self.buffered().len() == 0,
            EngineState::Accumulating => {
                &&& self.buffered().len() > 0
                &&& !occurs(self.buffered(), self.boundary())
            },
            EngineState::Ready => {
                &&& occurs(self.on_offer(), self.boundary())
                &&& is_prefix(self.on_offer(), self.stream())
            },
            EngineState::Exhausted => {
                &&& self.buffered().len() > 0
                &&& !occurs(self.buffered(), self.boundary())
                &&& self.source().remaining().len() == 0
            },
        }
    }

    /// The bytes that a `consume` takes from: the buffered bytes or, where
    /// nothing is buffered, the window of the source.
    pub open spec fn on_offer(&self) -> Seq<u8> {
        if self.buffered().len() > 0 {
            self.buffered()
        } else {
            self.source().window()
        }
    }

    /// Every byte that the engine has still to hand out: the buffered
    /// bytes, then what is left of the source.
    pub open spec fn stream(&self) -> Seq<u8> {
        self.buffered() + self.source().remaining()
    }

    /// What one `fill_buf` does: `r` comes out of it, with the window
    /// taken as a sequence, and it takes the engine from `pre` to `post`.
    pub open spec fn fill_result(pre: Self, post: Self, r: Result<Seq<u8>, FillError>) -> bool {
        &&& post.well_formed()
        &&& post.stream() == pre.stream()
        &&& post.boundary() == pre.boundary()
        &&& post.source().reliable() == pre.source().reliable()
        &&& pre.presenting() ==> post == pre && r == Ok::<Seq<u8>, FillError>(pre.on_offer())
        &&& match r {
            Ok(chunk) => {
                &&& post.presenting()
                &&& chunk == post.on_offer()
                &&& chunk.len() > 0
                &&& is_prefix(chunk, pre.stream())
                &&& post.phase() == EngineState::Ready ==> occurs(chunk, pre.boundary())
                &&& post.phase() == EngineState::Exhausted ==> chunk == pre.stream() && !occurs(
                    chunk,
                    pre.boundary(),
                )
                &&& !pre.presenting() && post.phase() == EngineState::Ready
                    && post.buffered().len() > 0 ==> late_boundary(
                    chunk,
                    pre.buffered().len() as int,
                    pre.boundary(),
                )
            },
            Err(FillError::EndOfInput) => {
                &&& post.phase() == EngineState::Empty
                &&& pre.stream().len() == 0
            },
            Err(FillError::Io(e)) => {
                &&& !post.presenting()
                &&& !pre.source().reliable()
                &&& post.source().last_failure() == Some(e)
            },
        }
    }

    /// Create a new `ChunkBuffer` wrapping `input` and breaking at
    /// `boundary`.
    pub fn new(input: &'a mut T, boundary: &[u8]) -> (engine: ChunkBuffer<'a, T>)
        requires
            boundary@.len() >= 1,
            old(input).inv(),
        ensures
            engine.well_formed(),
            engine.phase() == EngineState::Empty,
            engine.boundary() == boundary@,
            engine.buffered() == Seq::<u8>::empty(),
            engine.source() == *old(input),
            *final(engine.borrow()) == *final(input),
            engine.stream() == old(input).remaining(),
    {
        let engine = ChunkBuffer {
            input,
            boundary: vstd::slice::slice_to_vec(boundary),
            buffer: Vec::new(),
            state: EngineState::Empty,
        };
        assert(engine.stream() =~= engine.source().remaining());
        engine
    }

    /// Where the engine stands.
    pub fn state(&self) -> (state: EngineState)
        ensures
            state == self.phase(),
    {
        self.state
    }

    /// Ends the engine's hold on its source.  Bytes that are still
    /// buffered are dropped with the engine.
    pub fn release(self)
        ensures
            *final(self.borrow()) == self.source(),
    {
    }

    /// Called internally to make the buffer hold a chunk: pulls windows
    /// from the source until the boundary has arrived or the stream ends.
    fn top_up(&mut self) -> (r: Result<(), FillError>)
        requires
            old(self).well_formed(),
            !old(self).presenting(),
        ensures
            final(self).well_formed(),
            final(self).stream() == old(self).stream(),
            final(self).boundary() == old(self).boundary(),
            final(self).source().reliable() == old(self).source().reliable(),
            *final(final(self).borrow()) == *final(old(self).borrow()),
            match r {
                Ok(()) => {
                    &&& final(self).presenting()
                    &&& final(self).buffered().len() > 0
                    &&& final(self).phase() == EngineState::Ready ==> late_boundary(
                        final(self).buffered(),
                        old(self).buffered().len() as int,
                        old(self).boundary(),
                    )
                },
                Err(FillError::EndOfInput) => {
                    &&& final(self).phase() == EngineState::Empty
                    &&& old(self).stream().len() == 0
                },
                Err(FillError::Io(e)) => {
                    &&& !final(self).presenting()
                    &&& !old(self).source().reliable()
                    &&& final(self).source().last_failure() == Some(e)
                },
            },
    {
        loop
            invariant
                self.well_formed(),
                !self.presenting(),
                self.stream() == old(self).stream(),
                self.boundary() == old(self).boundary(),
                self.source().reliable() == old(self).source().reliable(),
                self.buffered().len() >= old(self).buffered().len(),
                *final(self.borrow()) == *final(old(self).borrow()),
            decreases self.source().remaining().len(), self.source().patience(),
        {
            let ghost before = *self;
            let round = digest(&mut self.buffer, self.input.fill_buf(), self.boundary.as_slice());
            match round.1 {
                Progress::Stop(e) => {
                    return Err(e);
                },
                Progress::LastChunk => {
                    self.state = EngineState::Exhausted;
                    return Ok(());
                },
                Progress::Chunk | Progress::More => {
                    proof {
                        let rest = self.source().remaining();
                        let taken = self.source().window().take(round.0 as int);
                        assert(taken + rest.skip(round.0 as int) =~= rest);
                        assert(self.buffered() + rest.skip(round.0 as int) =~= before.buffered()
                            + rest);
                    }
                    let ghost view = self.source().window();
                    self.input.consume(round.0);
                    if round.1 == Progress::Chunk {
                        self.state = EngineState::Ready;
                        proof {
                            let chunk = self.buffered();
                            let seam = before.buffered().len() as int;
                            let taken = view.take(round.0 as int);
                            assert(self.stream().subrange(0, chunk.len() as int) =~= chunk);
                            assert(chunk.take(seam) =~= before.buffered());
                            assert(chunk.skip(seam) =~= taken);
                            if occurs(taken, self.boundary()) {
                                lemma_occurs_in_prefix(taken, view, self.boundary());
                                lemma_first_in_prefix(
                                    view,
                                    self.boundary(),
                                    round.0 - self.boundary().len(),
                                    round.0 as int,
                                );
                            }
                            assert(seamed(chunk, seam, self.boundary()));
                        }
                        return Ok(());
                    }
                    if self.buffer.len() > 0 {
                        self.state = EngineState::Accumulating;
                    }
                },
            }
        }
    }
}

impl<'a, T: Source> Source for ChunkBuffer<'a, T> {
    open spec fn inv(&self) -> bool {
        self.well_formed()
    }

    open spec fn remaining(&self) -> Seq<u8> {
        self.stream()
    }

    open spec fn window(&self) -> Seq<u8> {
        self.on_offer()
    }

    open spec fn patience(&self) -> nat {
        0
    }

    open spec fn reliable(&self) -> bool {
        self.source().reliable()
    }

    open spec fn last_failure(&self) -> Option<IoError> {
        self.source().last_failure()
    }

    /// Hands out the next chunk.
    ///
    /// With a chunk on offer, that chunk is handed out again and nothing
    /// is touched.  With nothing buffered, the window of the source is
    /// handed out as it is where it holds the boundary.  Otherwise the
    /// buffer is topped up until it holds the boundary or the stream ends;
    /// what is buffered at the end of the stream is the last chunk.
    fn fill_buf(&mut self) -> (r: Result<&[u8], FillError>)
        ensures
            Self::fill_result(*old(self), *final(self), outcome(r)),
            *final(final(self).borrow()) == *final(old(self).borrow()),
    {
        match self.state {
            EngineState::Ready | EngineState::Exhausted => {},
            EngineState::Accumulating => {
                match self.top_up() {
                    Ok(()) => {},
                    Err(e) => {
                        return Err(e);
                    },
                }
            },
            EngineState::Empty => {
                let direct = match self.input.fill_buf() {
                    Ok(view) => contains(view, self.boundary.as_slice()),
                    Err(e) => {
                        return Err(e);
                    },
                };
                if direct {
                    self.state = EngineState::Ready;
                } else {
                    match self.top_up() {
                        Ok(()) => {},
                        Err(e) => {
                            return Err(e);
                        },
                    }
                }
            },
        }
        proof {
            if self.phase() == EngineState::Exhausted {
                assert(self.stream() =~= self.buffered());
                assert(self.stream().subrange(0, self.buffered().len() as int) =~= self.buffered());
            }
        }
        if self.buffer.len() > 0 {
            Ok(self.buffer.as_slice())
        } else {
            Ok(self.input.peek())
        }
    }

    fn peek(&self) -> (view: &[u8]) {
        if self.buffer.len() > 0 {
            self.buffer.as_slice()
        } else {
            self.input.peek()
        }
    }

    /// Drops `n` bytes from the front of what is on offer: from the
    /// buffer where it holds any, else from the window of the source.
    fn consume(&mut self, n: usize)
        ensures
            final(self).boundary() == old(self).boundary(),
            *final(final(self).borrow()) == *final(old(self).borrow()),
            old(self).buffered().len() > 0 ==> {
                &&& final(self).buffered() == old(self).buffered().skip(n as int)
                &&& final(self).source() == old(self).source()
            },
            old(self).buffered().len() == 0 ==> {
                &&& final(self).buffered().len() == 0
                &&& final(self).phase() == EngineState::Empty
            },
            final(self).phase() == (if final(self).buffered().len() == 0 {
                EngineState::Empty
            } else if old(self).phase() == EngineState::Exhausted {
                EngineState::Exhausted
            } else if occurs(final(self).buffered(), old(self).boundary()) {
                EngineState::Ready
            } else {
                EngineState::Accumulating
            }),
    {
        if self.buffer.len() > 0 {
            drop_front(&mut self.buffer, n);
            proof {
                assert(self.buffered() =~= old(self).buffered().skip(n as int));
                assert(self.stream() =~= old(self).stream().skip(n as int));
                assert(self.stream().subrange(0, self.buffered().len() as int) =~= self.buffered());
                if occurs(self.buffered(), self.boundary()) {
                    lemma_occurs_in_suffix(old(self).buffered(), self.boundary(), n as int);
                }
            }
            if self.buffer.len() == 0 {
                self.state = EngineState::Empty;
            } else {
                match self.state {
                    EngineState::Ready => {
                        if !contains(self.buffer.as_slice(), self.boundary.as_slice()) {
                            self.state = EngineState::Accumulating;
                        }
                    },
                    _ => {},
                }
            }
            proof {
                let left = old(self).on_offer().skip(n as int);
                if self.buffered().len() > 0 {
                    assert(self.on_offer().subrange(0, left.len() as int) =~= left);
                } else {
                    assert(left.len() == 0);
                    assert(self.on_offer().subrange(0, 0) =~= left);
                }
            }
        } else {
            self.input.consume(n);
            self.state = EngineState::Empty;
            proof {
                assert(self.stream() =~= self.source().remaining());
                assert(old(self).stream() =~= old(self).source().remaining());
            }
        }
    }
}

} // verus!
