//! Chunked, allocation-averse access to delimiter-separated byte streams.
//!
//! A [`buffers::ChunkBuffer`] sits on top of any byte [`source::Source`] and
//! hands out windows of the stream that end only after a full occurrence of
//! a caller-chosen boundary, or at the end of the stream.  Where the source
//! already holds such a window, it is handed out without a copy.
//!
//! - [`search`]: finding a byte sequence in a window.
//! - [`source`]: the fill/consume protocol of a byte source, and a source
//!   over bytes in memory.
//! - [`dribble`]: a source that fragments another one, for testing.
//! - [`buffers`]: the chunk engine.
//! - [`reading`]: reading a stream to its end, chunk by chunk.
//! - [`laws`]: what holds of the engine across calls.
//! - [`iter`]: a streaming iteration protocol for producers whose items
//!   borrow from the producer itself, and a loop over it.
//! - [`streaming_for`]: a copying and a zero-copy parser, side by side.
pub mod buffers;
pub mod dribble;
pub mod iter;
pub mod laws;
pub mod reading;
pub mod search;
pub mod source;
pub mod streaming_for;
