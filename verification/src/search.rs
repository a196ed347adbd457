//! Delimiter search: locating a fixed byte sequence inside a byte window.
//!
//! The search is a plain left-to-right scan, quadratic in the worst case.
//! It sits on the hot path of the chunk engine; a skip-based algorithm can
//! replace the body of [`find`] without touching any contract.
use vstd::prelude::*;

verus! {

/// `needle` lies in `hay` starting at index `at`.
pub open spec fn matches_at(hay: Seq<u8>, needle: Seq<u8>, at: int) -> bool {
    &&& 0 <= at
    &&& at + needle.len() <= hay.len()
    &&& hay.subrange(at, at + needle.len()) == needle
}

/// `needle` lies somewhere in `hay`.
pub open spec fn occurs(hay: Seq<u8>, needle: Seq<u8>) -> bool {
    exists|at: int| matches_at(hay, needle, at)
}

/// No occurrence of `needle` in `hay` starts before index `bound`.
pub open spec fn none_before(hay: Seq<u8>, needle: Seq<u8>, bound: int) -> bool {
    forall|at: int| 0 <= at < bound ==> !matches_at(hay, needle, at)
}

/// `at` is the leftmost index at which `needle` lies in `hay`.
pub open spec fn first_at(hay: Seq<u8>, needle: Seq<u8>, at: int) -> bool {
    matches_at(hay, needle, at) && none_before(hay, needle, at)
}

/// `pre` is what `whole` starts with.
pub open spec fn is_prefix(pre: Seq<u8>, whole: Seq<u8>) -> bool {
    pre.len() <= whole.len() && whole.subrange(0, pre.len() as int) == pre
}

/// A needle that lies in a part of a window lies in the window, shifted by
/// where the part starts.
pub proof fn lemma_match_in_part(hay: Seq<u8>, needle: Seq<u8>, from: int, to: int, at: int)
    requires
        0 <= from <= to <= hay.len(),
        0 <= at,
        at + needle.len() <= to - from,
    ensures
        matches_at(hay.subrange(from, to), needle, at) == matches_at(hay, needle, from + at),
{
    let part = hay.subrange(from, to);
    assert(part.subrange(at, at + needle.len()) =~= hay.subrange(
        from + at,
        from + at + needle.len(),
    ));
}

/// A needle that lies in the start of a window lies in the window.
pub proof fn lemma_occurs_in_prefix(pre: Seq<u8>, whole: Seq<u8>, needle: Seq<u8>)
    requires
        is_prefix(pre, whole),
        occurs(pre, needle),
    ensures
        occurs(whole, needle),
{
    let at = choose|at: int| matches_at(pre, needle, at);
    lemma_match_in_part(whole, needle, 0, pre.len() as int, at);
    assert(matches_at(whole, needle, at));
}

/// The leftmost occurrence in a window is the leftmost one in every start
/// of the window that reaches to its end.
pub proof fn lemma_first_in_prefix(hay: Seq<u8>, needle: Seq<u8>, at: int, len: int)
    requires
        first_at(hay, needle, at),
        at + needle.len() <= len <= hay.len(),
    ensures
        first_at(hay.take(len), needle, at),
{
    let pre = hay.take(len);
    lemma_match_in_part(hay, needle, 0, len, at);
    assert forall|other: int| 0 <= other < at implies !matches_at(pre, needle, other) by {
        lemma_match_in_part(hay, needle, 0, len, other);
    }
}

/// A needle that lies in the end of a window lies in the window.
pub proof fn lemma_occurs_in_suffix(whole: Seq<u8>, needle: Seq<u8>, from: int)
    requires
        0 <= from <= whole.len(),
        occurs(whole.skip(from), needle),
    ensures
        occurs(whole, needle),
{
    let at = choose|at: int| matches_at(whole.skip(from), needle, at);
    assert(whole.skip(from) == whole.subrange(from, whole.len() as int));
    lemma_match_in_part(whole, needle, from, whole.len() as int, at);
    assert(matches_at(whole, needle, from + at));
}

/// Where neither of two windows holds the needle, the needle can lie in
/// their concatenation only across the seam: it then lies in the stretch
/// that reaches one byte short of a needle's length to either side of it.
pub proof fn lemma_seam(left: Seq<u8>, right: Seq<u8>, needle: Seq<u8>, from: int, to: int)
    requires
        needle.len() >= 1,
        !occurs(left, needle),
        !occurs(right, needle),
        0 <= from <= left.len() <= to <= left.len() + right.len(),
        from <= left.len() - (needle.len() - 1) || from == 0,
        to >= left.len() + (needle.len() - 1) || to == left.len() + right.len(),
    ensures
        occurs(left + right, needle) == occurs((left + right).subrange(from, to), needle),
{
    let joined = left + right;
    let part = joined.subrange(from, to);
    if occurs(part, needle) {
        let at = choose|at: int| matches_at(part, needle, at);
        lemma_match_in_part(joined, needle, from, to, at);
        assert(matches_at(joined, needle, from + at));
    }
    if occurs(joined, needle) {
        let at = choose|at: int| matches_at(joined, needle, at);
        if at + needle.len() <= left.len() {
            assert(joined.subrange(0, left.len() as int) =~= left);
            lemma_match_in_part(joined, needle, 0, left.len() as int, at);
            assert(matches_at(left, needle, at));
        } else if at >= left.len() {
            assert(joined.subrange(left.len() as int, joined.len() as int) =~= right);
            lemma_match_in_part(
                joined,
                needle,
                left.len() as int,
                joined.len() as int,
                at - left.len(),
            );
            assert(matches_at(right, needle, at - left.len()));
        } else {
            lemma_match_in_part(joined, needle, from, to, at - from);
            assert(matches_at(part, needle, at - from));
        }
    }
}

/// Do the `needle.len()` bytes of `hay` from `at` on equal `needle`?
fn matches_here(hay: &[u8], needle: &[u8], at: usize) -> (same: bool)
    requires
        at + needle@.len() <= hay@.len(),
    ensures
        same == matches_at(hay@, needle@, at as int),
{
    let width: usize = needle.len();
    let end: usize = hay.len();
    let mut k: usize = 0;
    while k < width
        invariant
            width == needle@.len(),
            end == hay@.len(),
            k <= width,
            at + width <= end,
            forall|j: int| 0 <= j < k ==> hay@[at + j] == needle@[j],
        decreases needle@.len() - k,
    {
        if hay[at + k] != needle[k] {
            proof {
                let window = hay@.subrange(at as int, at + needle@.len());
                assert(window[k as int] == hay@[at + k]);
            }
            return false;
        }
        k = k + 1;
    }
    assert(hay@.subrange(at as int, at + needle@.len()) =~= needle@);
    true
}

/// The leftmost position at which `needle` lies in `hay`, if there is one.
/// The empty needle lies at position 0 of every window.
pub fn find(hay: &[u8], needle: &[u8]) -> (pos: Option<usize>)
    ensures
        match pos {
            Some(at) => first_at(hay@, needle@, at as int),
            None => !occurs(hay@, needle@),
        },
{
    if hay.len() < needle.len() {
        return None;
    }
    let last: usize = hay.len() - needle.len();
    let mut at: usize = 0;
    loop
        invariant
            last == hay@.len() - needle@.len(),
            at <= last,
            none_before(hay@, needle@, at as int),
        decreases last - at,
    {
        if matches_here(hay, needle, at) {
            return Some(at);
        }
        if at == last {
            return None;
        }
        at = at + 1;
    }
}

/// Does `needle` lie somewhere in `hay`?
pub fn contains(hay: &[u8], needle: &[u8]) -> (found: bool)
    ensures
        found == occurs(hay@, needle@),
{
    find(hay, needle).is_some()
}

/// Search by method call on anything that holds a window of bytes.
pub trait SliceContains {
    /// The bytes that are searched.
    open spec fn bytes(&self) -> Seq<u8> {
        Seq::empty()
    }

    /// Does `needle` appear in this buffer?
    fn contains_slice(&self, needle: &[u8]) -> (found: bool)
        ensures
            found == occurs(self.bytes(), needle@),
    ;

    /// At what location does `needle` first appear in this buffer?
    fn contains_slice_pos(&self, needle: &[u8]) -> (pos: Option<usize>)
        ensures
            match pos {
                Some(at) => first_at(self.bytes(), needle@, at as int),
                None => !occurs(self.bytes(), needle@),
            },
    ;
}

impl<'a> SliceContains for &'a [u8] {
    open spec fn bytes(&self) -> Seq<u8> {
        self@
    }

    fn contains_slice(&self, needle: &[u8]) -> (found: bool) {
        contains(*self, needle)
    }

    fn contains_slice_pos(&self, needle: &[u8]) -> (pos: Option<usize>) {
        find(*self, needle)
    }
}

impl SliceContains for Vec<u8> {
    open spec fn bytes(&self) -> Seq<u8> {
        self@
    }

    fn contains_slice(&self, needle: &[u8]) -> (found: bool) {
        contains(self.as_slice(), needle)
    }

    fn contains_slice_pos(&self, needle: &[u8]) -> (pos: Option<usize>) {
        find(self.as_slice(), needle)
    }
}

} // verus!
