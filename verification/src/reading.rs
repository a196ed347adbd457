//! Reading a stream to its end, chunk by chunk, and what holds of the
//! chunks that come out.
use vstd::prelude::*;
use crate::buffers::{ChunkBuffer, EngineState};
use crate::search::occurs;
use crate::source::{FillError, IoError, Source};

verus! {

/// The chunks of a list, each taken as a sequence of bytes.
pub open spec fn chunk_views(chunks: Seq<Vec<u8>>) -> Seq<Seq<u8>> {
    chunks.map_values(|chunk: Vec<u8>| chunk@)
}

/// The chunks that a list has from index `kept` on, each taken as a
/// sequence of bytes.
pub open spec fn new_chunks(chunks: Seq<Vec<u8>>, kept: nat) -> Seq<Seq<u8>> {
    chunk_views(chunks.skip(kept as int))
}

/// `chunks` are cut at `boundary`: none is empty, and each but the last
/// holds the boundary.
pub open spec fn cut_at(chunks: Seq<Seq<u8>>, boundary: Seq<u8>) -> bool {
    &&& forall|i: int| 0 <= i < chunks.len() ==> (#[trigger] chunks[i]).len() > 0
    &&& forall|i: int| 0 <= i < chunks.len() - 1 ==> occurs(#[trigger] chunks[i], boundary)
}

/// `chunks` cut `stream` at `boundary`: put end to end they are the
/// stream, none is empty, and each but the last holds the boundary.
pub open spec fn is_chunking(chunks: Seq<Seq<u8>>, stream: Seq<u8>, boundary: Seq<u8>) -> bool {
    chunks.flatten() == stream && cut_at(chunks, boundary)
}

/// Reads a source to its end and appends every byte of it, in order, to
/// `into`.  Only a failure of the device stops the reading early, and
/// then what was read so far has been appended: no byte is lost.
pub fn read_chunks<T: Source>(chunked: &mut T, into: &mut Vec<u8>) -> (r: Result<(), IoError>)
    requires
        old(chunked).inv(),
    ensures
        final(chunked).inv(),
        final(chunked).reliable() == old(chunked).reliable(),
        final(into)@ + final(chunked).remaining() == old(into)@ + old(chunked).remaining(),
        old(into)@.len() <= final(into)@.len(),
        final(into)@.take(old(into)@.len() as int) == old(into)@,
        match r {
            Ok(()) => final(chunked).remaining().len() == 0,
            Err(e) => {
                &&& !old(chunked).reliable()
                &&& final(chunked).last_failure() == Some(e)
            },
        },
{
    proof {
        assert(into@.take(into@.len() as int) =~= into@);
    }
    loop
        invariant
            chunked.inv(),
            chunked.reliable() == old(chunked).reliable(),
            into@ + chunked.remaining() == old(into)@ + old(chunked).remaining(),
            old(into)@.len() <= into@.len(),
            into@.take(old(into)@.len() as int) == old(into)@,
        decreases chunked.remaining().len(), chunked.patience(),
    {
        let ghost before = into@;
        let n: usize = match chunked.fill_buf() {
            Ok(chunk) => {
                into.extend_from_slice(chunk);
                chunk.len()
            },
            Err(FillError::EndOfInput) => {
                return Ok(());
            },
            Err(FillError::Io(e)) => {
                return Err(e);
            },
        };
        proof {
            let chunk = chunked.window();
            let rest = chunked.remaining();
            assert(into@ =~= before + chunk);
            assert(chunk + rest.skip(n as int) =~= rest);
            assert(into@ + rest.skip(n as int) =~= before + rest);
            assert(into@.take(old(into)@.len() as int) =~= before.take(old(into)@.len() as int));
        }
        chunked.consume(n);
    }
}

impl<'a, T: Source> ChunkBuffer<'a, T> {
    /// Reads the stream to its end and appends its chunks, in order, to
    /// `into`: the engine is filled and what it offers is consumed whole,
    /// until the stream is exhausted.  Only a failure of the device stops
    /// the reading early, and then the chunks read so far have been
    /// appended, each of them with the boundary in it: no byte is lost.
    pub fn collect_chunks(&mut self, into: &mut Vec<Vec<u8>>) -> (r: Result<(), IoError>)
        requires
            old(self).well_formed(),
        ensures
            final(self).well_formed(),
            final(self).boundary() == old(self).boundary(),
            final(self).source().reliable() == old(self).source().reliable(),
            *final(final(self).borrow()) == *final(old(self).borrow()),
            old(into)@.len() <= final(into)@.len(),
            final(into)@.take(old(into)@.len() as int) == old(into)@,
            new_chunks(final(into)@, old(into)@.len()).flatten() + final(self).stream() == old(
                self,
            ).stream(),
            cut_at(new_chunks(final(into)@, old(into)@.len()), old(self).boundary()),
            match r {
                Ok(()) => {
                    &&& final(self).stream().len() == 0
                    &&& final(self).phase() == EngineState::Empty
                    &&& is_chunking(
                        new_chunks(final(into)@, old(into)@.len()),
                        old(self).stream(),
                        old(self).boundary(),
                    )
                },
                Err(e) => {
                    &&& !old(self).source().reliable()
                    &&& final(self).source().last_failure() == Some(e)
                    &&& forall|i: int|
                        old(into)@.len() <= i < final(into)@.len() ==> occurs(
                            (#[trigger] final(into)@[i])@,
                            old(self).boundary(),
                        )
                },
            },
    {
        let ghost kept = into@.len() as int;
        proof {
            assert(into@.take(kept) =~= into@);
            assert(chunk_views(into@.skip(kept)) =~= Seq::<Seq<u8>>::empty());
            assert(chunk_views(into@.skip(kept)).flatten() + self.stream() =~= self.stream());
        }
        loop
            invariant
                self.well_formed(),
                self.boundary() == old(self).boundary(),
                self.source().reliable() == old(self).source().reliable(),
                *final(self.borrow()) == *final(old(self).borrow()),
                kept == old(into)@.len() <= into@.len(),
                into@.take(kept) == old(into)@,
                chunk_views(into@.skip(kept)).flatten() + self.stream() == old(self).stream(),
                forall|i: int|
                    kept <= i < into@.len() ==> {
                        &&& (#[trigger] into@[i])@.len() > 0
                        &&& occurs(into@[i]@, self.boundary())
                    },
            decreases self.stream().len(),
        {
            let ghost before = into@;
            let ghost stream = self.stream();
            proof {
                lemma_new_chunks_cut(into@, kept, self.boundary());
            }
            let n: usize = match self.fill_buf() {
                Ok(chunk) => {
                    into.push(vstd::slice::slice_to_vec(chunk));
                    chunk.len()
                },
                Err(FillError::EndOfInput) => {
                    assert(chunk_views(into@.skip(kept)).flatten() =~= old(self).stream());
                    return Ok(());
                },
                Err(FillError::Io(e)) => {
                    return Err(e);
                },
            };
            let last: bool = self.state() == EngineState::Exhausted;
            proof {
                let chunk = self.on_offer();
                assert(into@.take(kept) =~= before.take(kept));
                assert(chunk_views(into@.skip(kept)) =~= chunk_views(before.skip(kept)).push(
                    chunk,
                ));
                chunk_views(before.skip(kept)).lemma_flatten_push(chunk);
                assert(chunk + stream.skip(n as int) =~= stream);
                assert(chunk_views(into@.skip(kept)).flatten() + stream.skip(n as int)
                    =~= chunk_views(before.skip(kept)).flatten() + stream);
            }
            self.consume(n);
            if last {
                proof {
                    assert(chunk_views(into@.skip(kept)).flatten() =~= old(self).stream());
                    lemma_new_chunks_cut(into@.drop_last(), kept, self.boundary());
                    assert(into@.drop_last() =~= before);
                }
                return Ok(());
            }
        }
    }
}

/// Chunks that all hold the boundary are cut at it.
proof fn lemma_new_chunks_cut(chunks: Seq<Vec<u8>>, kept: int, boundary: Seq<u8>)
    requires
        0 <= kept <= chunks.len(),
        forall|i: int|
            kept <= i < chunks.len() ==> {
                &&& (#[trigger] chunks[i])@.len() > 0
                &&& occurs(chunks[i]@, boundary)
            },
    ensures
        cut_at(chunk_views(chunks.skip(kept)), boundary),
        forall|i: int|
            0 <= i < chunks.len() - kept ==> occurs(
                #[trigger] chunk_views(chunks.skip(kept))[i],
                boundary,
            ),
{
    let views = chunk_views(chunks.skip(kept));
    assert forall|i: int| 0 <= i < views.len() implies (#[trigger] views[i]).len() > 0 && occurs(
        views[i],
        boundary,
    ) by {
        assert(views[i] == chunks[kept + i]@);
    }
}

} // verus!
