//! What holds of a chunk engine across calls, whatever its source does.
use vstd::prelude::*;
use crate::buffers::{ChunkBuffer, EngineState};
use crate::dribble::DribbleBuffer;
use crate::reading::is_chunking;
use crate::search::{is_prefix, lemma_occurs_in_prefix, matches_at, occurs};
use crate::source::{FillError, Source};

verus! {

/// Boundary presence: a chunk that the engine hands out holds the
/// boundary, unless it is the last one, which is all that was left of the
/// stream.
pub proof fn lemma_boundary_presence<'a, T: Source>(
    pre: ChunkBuffer<'a, T>,
    post: ChunkBuffer<'a, T>,
    chunk: Seq<u8>,
)
    requires
        pre.well_formed(),
        ChunkBuffer::fill_result(pre, post, Ok(chunk)),
    ensures
        occurs(chunk, pre.boundary()) || chunk == pre.stream(),
        is_prefix(chunk, pre.stream()),
        chunk.len() > 0,
{
}

/// The buffer holds the boundary only while a chunk is on offer.
pub proof fn lemma_boundary_held_means_ready<'a, T: Source>(engine: ChunkBuffer<'a, T>)
    requires
        engine.well_formed(),
        occurs(engine.buffered(), engine.boundary()),
    ensures
        engine.phase() == EngineState::Ready,
        engine.on_offer() == engine.buffered(),
{
    if engine.buffered().len() == 0 {
        let at = choose|at: int| matches_at(engine.buffered(), engine.boundary(), at);
        assert(matches_at(engine.buffered(), engine.boundary(), at));
    }
}

/// A fill that hands out no chunk leaves the stream as it was.
pub proof fn lemma_failed_fill_keeps_stream<'a, T: Source>(
    pre: ChunkBuffer<'a, T>,
    post: ChunkBuffer<'a, T>,
    e: FillError,
)
    requires
        pre.well_formed(),
        ChunkBuffer::fill_result(pre, post, Err(e)),
    ensures
        post.stream() == pre.stream(),
        post.well_formed(),
        !pre.presenting(),
        !post.presenting(),
        e is Io ==> !pre.source().reliable() && post.source().last_failure() == Some(e->Io_0),
        e is EndOfInput ==> pre.stream().len() == 0,
{
}

/// Idempotent peek: of two fills with no consume between them, the second
/// hands out the bytes that the first handed out, and changes nothing.
pub proof fn lemma_idempotent_peek<'a, T: Source>(
    pre: ChunkBuffer<'a, T>,
    mid: ChunkBuffer<'a, T>,
    post: ChunkBuffer<'a, T>,
    first: Seq<u8>,
    second: Result<Seq<u8>, FillError>,
)
    requires
        pre.well_formed(),
        ChunkBuffer::fill_result(pre, mid, Ok(first)),
        ChunkBuffer::fill_result(mid, post, second),
    ensures
        second == Ok::<Seq<u8>, FillError>(first),
        post == mid,
{
}

/// Empty input: on a stream with nothing left, a fill hands out no chunk,
/// and unless the device fails it reports the end of the input.
pub proof fn lemma_empty_input<'a, T: Source>(
    pre: ChunkBuffer<'a, T>,
    post: ChunkBuffer<'a, T>,
    r: Result<Seq<u8>, FillError>,
)
    requires
        pre.well_formed(),
        pre.stream().len() == 0,
        ChunkBuffer::fill_result(pre, post, r),
    ensures
        r is Err,
        pre.source().reliable() ==> r == Err::<Seq<u8>, FillError>(FillError::EndOfInput),
        post.stream().len() == 0,
{
    assert(!pre.presenting()) by {
        if pre.phase() == EngineState::Ready {
            let at = choose|at: int| matches_at(pre.on_offer(), pre.boundary(), at);
            assert(matches_at(pre.on_offer(), pre.boundary(), at));
        }
    }
}

/// Undelimited tail: once no boundary is left in the stream, what is left
/// comes out as one last chunk, and nothing is left after it.
pub proof fn lemma_undelimited_tail<'a, T: Source>(
    pre: ChunkBuffer<'a, T>,
    post: ChunkBuffer<'a, T>,
    chunk: Seq<u8>,
)
    requires
        pre.well_formed(),
        !occurs(pre.stream(), pre.boundary()),
        ChunkBuffer::fill_result(pre, post, Ok(chunk)),
    ensures
        chunk == pre.stream(),
        post.stream().skip(chunk.len() as int).len() == 0,
{
    if occurs(chunk, pre.boundary()) {
        lemma_occurs_in_prefix(chunk, pre.stream(), pre.boundary());
    }
}

/// Fragmentation invariance: an engine on a source and an engine on the
/// same source behind a dribbling wrapper hand out the same bytes in all,
/// however the wrapper fragments them.
pub proof fn lemma_fragmentation_invariance<'a, 'b, 'c, T: Source>(
    plain: ChunkBuffer<'a, T>,
    dribbled: ChunkBuffer<'b, DribbleBuffer<'c, T>>,
    plain_chunks: Seq<Seq<u8>>,
    dribbled_chunks: Seq<Seq<u8>>,
)
    requires
        plain.buffered() == dribbled.buffered(),
        plain.source().remaining() == dribbled.source().source().remaining(),
        is_chunking(plain_chunks, plain.stream(), plain.boundary()),
        is_chunking(dribbled_chunks, dribbled.stream(), dribbled.boundary()),
    ensures
        plain_chunks.flatten() == dribbled_chunks.flatten(),
{
}

} // verus!
