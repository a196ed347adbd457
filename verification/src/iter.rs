//! A replacement for `Iterator` whose items may borrow from the iterator
//! itself, and a loop over such an iterator.
use vstd::prelude::*;

verus! {

/// Like `Iterator`, but it allows you to store temporary data in the
/// iterator itself, and return temporary references from `next`.
///
/// An item is good until `next` is called again: the borrow that `next`
/// takes of the iterator lasts as long as the item does.
pub trait StreamingIterator<'a, T: View> {
    /// The iterator is in a consistent state.  An iterator that does not
    /// say when it is cannot be used from verified code.
    open spec fn inv(&self) -> bool {
        false
    }

    /// What the items that are still to come hold, in order.
    open spec fn upcoming(&self) -> Seq<T::V> {
        Seq::empty()
    }

    /// Hands out the item that comes next and moves past it, or `None`
    /// when no item is left.
    fn next(&'a mut self) -> (item: Option<T>)
        requires
            old(self).inv(),
        ensures
            final(self).inv(),
            match item {
                Some(first) => {
                    &&& old(self).upcoming().len() > 0
                    &&& first@ == old(self).upcoming()[0]
                    &&& final(self).upcoming() == old(self).upcoming().skip(1)
                },
                None => {
                    &&& old(self).upcoming().len() == 0
                    &&& final(self).upcoming().len() == 0
                },
            },
    ;
}

/// A family of item types, one for each lifetime of a borrow, that all
/// hold the same kind of thing.
pub trait Lending {
    /// What an item holds.
    type Model;

    /// The item that lives as long as `'a`.
    type Item<'a>: View<V = Self::Model>;
}

/// The family of borrowed byte windows.
pub struct ByteSlices;

impl Lending for ByteSlices {
    type Model = Seq<u8>;
    type Item<'a> = &'a [u8];
}

/// The family of triples of borrowed strings.
pub struct StrTriples;

impl Lending for StrTriples {
    type Model = (Seq<char>, Seq<char>, Seq<char>);
    type Item<'a> = (&'a str, &'a str, &'a str);
}

/// The body of a streaming loop: what is done with each item of a
/// family.
pub trait LoopBody<L: Lending>: Sized {
    /// What the body becomes by visiting an item that holds `item`, and
    /// whether the loop goes on after it.  A body that does not say is
    /// one of which nothing is known.
    open spec fn step(self, item: L::Model) -> (Self, bool) {
        arbitrary()
    }

    /// Visits one item.  Returns `false` to leave the loop.
    fn visit<'a>(&mut self, item: L::Item<'a>) -> (go_on: bool)
        ensures
            (*final(self), go_on) == old(self).step(item@),
    ;
}

/// What a streaming loop over `items` makes of `body`, and how many items
/// it takes: the items are visited in order until the body leaves the
/// loop or none is left.
pub open spec fn run<L: Lending, B: LoopBody<L>>(body: B, items: Seq<L::Model>) -> (B, nat)
    decreases items.len(),
{
    if items.len() == 0 {
        (body, 0)
    } else {
        let (next, go_on) = body.step(items[0]);
        if go_on {
            let (last, taken) = run::<L, B>(next, items.skip(1));
            (last, taken + 1)
        } else {
            (next, 1)
        }
    }
}

/// A streaming loop takes no more items than there are, and at least one
/// where there is any.
pub proof fn lemma_run_bounded<L: Lending, B: LoopBody<L>>(body: B, items: Seq<L::Model>)
    ensures
        run::<L, B>(body, items).1 <= items.len(),
        items.len() > 0 ==> run::<L, B>(body, items).1 >= 1,
    decreases items.len(),
{
    if items.len() > 0 {
        lemma_run_bounded::<L, B>(body.step(items[0]).0, items.skip(1));
    }
}

/// Similar to `for`: hands each item of `iter` to `body`, one at a time,
/// until the body leaves the loop or the iterator is done.  The iterator
/// is borrowed once for the whole loop, and is left just past the last
/// item that was visited.
pub fn streaming_for<L: Lending, I, B: LoopBody<L>>(iter: &mut I, body: &mut B)
    where
        I: for <'a>StreamingIterator<'a, L::Item<'a>>,
    requires
        old(iter).inv(),
    ensures
        final(iter).inv(),
        run::<L, B>(*old(body), old(iter).upcoming()).1 <= old(iter).upcoming().len(),
        *final(body) == run::<L, B>(*old(body), old(iter).upcoming()).0,
        final(iter).upcoming() == old(iter).upcoming().skip(
            run::<L, B>(*old(body), old(iter).upcoming()).1 as int,
        ),
{
    proof {
        lemma_run_bounded::<L, B>(*body, iter.upcoming());
    }
    loop
        invariant
            iter.inv(),
            run::<L, B>(*body, iter.upcoming()).0 == run::<L, B>(*old(body), old(iter).upcoming()).0,
            iter.upcoming().len() <= old(iter).upcoming().len(),
            iter.upcoming() == old(iter).upcoming().skip(
                old(iter).upcoming().len() - iter.upcoming().len(),
            ),
            old(iter).upcoming().len() - iter.upcoming().len() + run::<L, B>(*body, iter.upcoming()).1
                == run::<L, B>(*old(body), old(iter).upcoming()).1,
        decreases iter.upcoming().len(),
    {
        let ghost items = iter.upcoming();
        match iter.next() {
            None => {
                assert(iter.upcoming() =~= old(iter).upcoming().skip(
                    old(iter).upcoming().len() as int,
                ));
                return ;
            },
            Some(item) => {
                let go_on = body.visit(item);
                proof {
                    let whole = old(iter).upcoming();
                    let at = whole.len() - items.len();
                    assert(items.skip(1) =~= whole.skip(at + 1));
                }
                if !go_on {
                    return ;
                }
            },
        }
    }
}

/// A loop body that counts the items it is shown, up to the largest
/// count there is, and never leaves the loop.
pub struct Count {
    /// The number of items seen so far.
    pub seen: usize,
}

impl<L: Lending> LoopBody<L> for Count {
    open spec fn step(self, item: L::Model) -> (Self, bool) {
        (
            Count {
                seen: if self.seen < usize::MAX {
                    (self.seen + 1) as usize
                } else {
                    self.seen
                },
            },
            true,
        )
    }

    fn visit<'a>(&mut self, item: L::Item<'a>) -> (go_on: bool) {
        if self.seen < usize::MAX {
            self.seen = self.seen + 1;
        }
        true
    }
}

/// A counting body visits every item of a loop, and ends with as many
/// more on its count as there were items, short of the largest count.
pub proof fn lemma_count_run<L: Lending>(count: Count, items: Seq<L::Model>)
    ensures
        run::<L, Count>(count, items).1 == items.len(),
        run::<L, Count>(count, items).0.seen == (if count.seen + items.len() <= usize::MAX {
            count.seen + items.len()
        } else {
            usize::MAX as int
        }),
    decreases items.len(),
{
    if items.len() > 0 {
        let next = LoopBody::<L>::step(count, items[0]).0;
        lemma_count_run::<L>(next, items.skip(1));
    }
}

} // verus!
