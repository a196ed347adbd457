//! A source that dribbles the bytes of another source through in small
//! fragments of seeded pseudo-random length, to stress whatever reads
//! from it.
use vstd::prelude::*;
use crate::source::{FillError, IoError, Source};

verus! {

/// The longest fragment that a dribbling source hands out.
pub const FRAGMENT_CAP: usize = 5;

/// How many empty fragments a dribbling source hands out, at most, before
/// something is consumed from it.
pub const MAX_IDLE: usize = 16;

/// A linear congruential generator over 64-bit states.
#[derive(Clone, Copy, Debug, PartialEq, Eq, Structural)]
pub struct Lcg {
    /// The current state.
    pub state: u64,
}

/// The state that follows `state`.
pub open spec fn lcg_step(state: u64) -> u64 {
    vstd::wrapping::u64_specs::wrapping_add(
        vstd::wrapping::u64_specs::wrapping_mul(state, 6364136223846793005u64),
        1442695040888963407u64,
    )
}

/// The fragment length that a state stands for, from 0 to the cap: its
/// upper bits, which change fastest from one state to the next, modulo
/// the number of lengths there are.
pub open spec fn lcg_draw(state: u64) -> nat {
    ((state >> 33u64) as int % (FRAGMENT_CAP + 1)) as nat
}

impl Lcg {
    /// A generator that starts from `seed`.
    pub fn new(seed: u64) -> (rng: Lcg)
        ensures
            rng.state == seed,
    {
        Lcg { state: seed }
    }

    /// Moves on to the next state and draws a fragment length from it.
    pub fn next_len(&mut self) -> (len: usize)
        ensures
            final(self).state == lcg_step(old(self).state),
            len == lcg_draw(final(self).state),
            len <= FRAGMENT_CAP,
    {
        self.state = self.state.wrapping_mul(6364136223846793005u64).wrapping_add(
            1442695040888963407u64,
        );
        let top: u64 = self.state >> 33u64;
        (top % (FRAGMENT_CAP as u64 + 1)) as usize
    }
}

/// The length of the fragment that is handed out of a window of `avail`
/// bytes when `drawn` was drawn after `idle` empty draws: the draw,
/// clipped to the window, and one byte where the empty draws are used up.
pub open spec fn fragment_len(avail: nat, drawn: nat, idle: nat) -> nat {
    let wanted = if drawn == 0 && idle >= MAX_IDLE {
        1
    } else {
        drawn
    };
    if wanted <= avail {
        wanted
    } else {
        avail
    }
}

/// Used for testing other buffers.  Dribbles bytes through in small,
/// random increments.
pub struct DribbleBuffer<'a, T: Source> {
    input: &'a mut T,
    rng: Lcg,
    granted: usize,
    idle: usize,
}

impl<'a, T: Source> DribbleBuffer<'a, T> {
    /// The borrow of the wrapped source.
    pub closed spec fn borrow(&self) -> &'a mut T {
        self.input
    }

    /// The wrapped source as it is now.
    pub open spec fn source(&self) -> T {
        *self.borrow()
    }

    /// The generator that the fragment lengths come from.
    pub closed spec fn generator(&self) -> Lcg {
        self.rng
    }

    /// The length of the fragment on offer.
    pub closed spec fn granted(&self) -> nat {
        self.granted as nat
    }

    /// The number of empty draws since something was consumed.
    pub closed spec fn idle(&self) -> nat {
        self.idle as nat
    }

    /// The state of the wrapper fits the wrapped source.
    pub open spec fn well_formed(&self) -> bool {
        &&& self.source().inv()
        &&& self.granted() <= self.source().window().len()
        &&& self.idle() <= MAX_IDLE
    }

    /// Create a new wrapper around `input` that takes its fragment
    /// lengths from `rng`.
    pub fn new(input: &'a mut T, rng: Lcg) -> (dribble: DribbleBuffer<'a, T>)
        requires
            old(input).inv(),
        ensures
            dribble.well_formed(),
            dribble.source() == *old(input),
            *final(dribble.borrow()) == *final(input),
            dribble.generator() == rng,
            dribble.granted() == 0,
            dribble.idle() == 0,
    {
        DribbleBuffer { input, rng, granted: 0, idle: 0 }
    }

    /// Ends the wrapper's hold on the wrapped source.
    pub fn release(self)
        ensures
            *final(self.borrow()) == self.source(),
    {
    }
}

impl<'a, T: Source> Source for DribbleBuffer<'a, T> {
    open spec fn inv(&self) -> bool {
        self.well_formed()
    }

    open spec fn remaining(&self) -> Seq<u8> {
        self.source().remaining()
    }

    open spec fn window(&self) -> Seq<u8> {
        self.source().window().take(self.granted() as int)
    }

    open spec fn patience(&self) -> nat {
        (self.source().patience() + MAX_IDLE - self.idle()) as nat
    }

    open spec fn reliable(&self) -> bool {
        self.source().reliable()
    }

    open spec fn last_failure(&self) -> Option<IoError> {
        self.source().last_failure()
    }

    /// Fills the wrapped source and offers a fragment of its window: a
    /// start of it, of the length that the generator draws next.
    fn fill_buf(&mut self) -> (r: Result<&[u8], FillError>)
        ensures
            *final(final(self).borrow()) == *final(old(self).borrow()),
            r is Ok ==> {
                &&& final(self).generator().state == lcg_step(old(self).generator().state)
                &&& final(self).granted() == fragment_len(
                    final(self).source().window().len(),
                    lcg_draw(final(self).generator().state),
                    old(self).idle(),
                )
                &&& final(self).idle() == (if lcg_draw(final(self).generator().state) == 0
                    && old(self).idle() < MAX_IDLE {
                    old(self).idle() + 1
                } else {
                    old(self).idle()
                })
            },
            r is Err ==> {
                &&& final(self).generator() == old(self).generator()
                &&& final(self).idle() == old(self).idle()
                &&& final(self).granted() == 0
            },
    {
        let avail: usize = match self.input.fill_buf() {
            Ok(view) => view.len(),
            Err(e) => {
                self.granted = 0;
                return Err(e);
            },
        };
        let mut wanted: usize = self.rng.next_len();
        if wanted == 0 {
            if self.idle >= MAX_IDLE {
                wanted = 1;
            } else {
                self.idle = self.idle + 1;
            }
        }
        self.granted = if wanted <= avail {
            wanted
        } else {
            avail
        };
        assert(self.remaining().subrange(0, self.granted as int) =~= self.window());
        Ok(vstd::slice::slice_subrange(self.input.peek(), 0, self.granted))
    }

    fn peek(&self) -> (view: &[u8]) {
        vstd::slice::slice_subrange(self.input.peek(), 0, self.granted)
    }

    /// Forwards to the wrapped source, and shortens the fragment on offer
    /// by what was consumed.
    fn consume(&mut self, n: usize)
        ensures
            *final(final(self).borrow()) == *final(old(self).borrow()),
            final(self).generator() == old(self).generator(),
            final(self).granted() == old(self).granted() - n,
            final(self).idle() == (if n == 0 {
                old(self).idle()
            } else {
                0
            }),
    {
        self.input.consume(n);
        self.granted = self.granted - n;
        if n > 0 {
            self.idle = 0;
        }
        proof {
            let before = old(self).source().window();
            let after = self.source().window();
            let left = old(self).window().skip(n as int);
            assert(after.subrange(0, before.len() - n) == before.skip(n as int));
            assert forall|i: int| 0 <= i < left.len() implies self.window()[i] == left[i] by {
                assert(after.subrange(0, before.len() - n)[i] == before.skip(n as int)[i]);
            }
            assert(self.window().subrange(0, left.len() as int) =~= left);
        }
    }
}

} // verus!
