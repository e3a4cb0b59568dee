//! The treatment of one segment: a stable sort, then a shuffle of the middle
//! of the sorted segment. The head and the tail keep their sorted order.

use crate::pixel::Pixel;
use crate::sort::{
    is_ordered, lemma_stable_sorted_ordered, lemma_stable_sorted_permutes, stable_sort,
    stable_sorted, SortKey,
};
use rand::seq::SliceRandom;
use vstd::prelude::*;

verus! {

/// The generator that `rand::thread_rng` hands out. Nothing is known of its
/// state.
#[verifier::external_type_specification]
#[verifier::external_body]
pub struct ExThreadRng(rand::rngs::ThreadRng);

/// `rand::thread_rng` returns a handle to the generator of the calling
/// thread. Nothing is claimed of the handle. The first call on a thread seeds
/// the generator from the system and fails if the system has no randomness
/// to give.
pub assume_specification[ rand::thread_rng ]() -> (rng: rand::rngs::ThreadRng);

/// Where the shuffled middle of a segment of `len` pixels begins: three
/// tenths of the length, rounded to the nearest whole number, a half upwards.
pub open spec fn shuffle_start(len: int) -> int {
    (3 * len + 5) / 10
}

/// Where the shuffled middle of a segment of `len` pixels ends: seven tenths
/// of the length, rounded to the nearest whole number, a half upwards.
pub open spec fn shuffle_end(len: int) -> int {
    (7 * len + 5) / 10
}

/// The bounds of the shuffled middle of a segment of `len` pixels.
pub fn shuffle_bounds(len: usize) -> (bounds: (usize, usize))
    ensures
        bounds.0 == shuffle_start(len as int),
        bounds.1 == shuffle_end(len as int),
        bounds.0 <= bounds.1 <= len,
{
    let tens: usize = len / 10;
    let units: usize = len % 10;
    (3 * tens + (3 * units + 5) / 10, 7 * tens + (7 * units + 5) / 10)
}

/// Calls `SliceRandom::shuffle` of the `rand` crate on the pixels from
/// `start` up to `end`. The call swaps pixels inside that range and does
/// nothing else: the range ends up holding the same pixels in some order, and
/// the pixels outside it stay where they are. Which order comes out is not
/// stated.
#[verifier::external_body]
fn shuffle_range(
    pixels: &mut Vec<Pixel>,
    start: usize,
    end: usize,
    rng: &mut rand::rngs::ThreadRng,
)
    requires
        start <= end <= old(pixels)@.len(),
    ensures
        final(pixels)@.len() == old(pixels)@.len(),
        final(pixels)@.subrange(0, start as int) == old(pixels)@.subrange(0, start as int),
        final(pixels)@.subrange(end as int, old(pixels)@.len() as int) == old(pixels)@.subrange(
            end as int,
            old(pixels)@.len() as int,
        ),
        final(pixels)@.subrange(start as int, end as int).to_multiset() == old(
            pixels,
        )@.subrange(start as int, end as int).to_multiset(),
{
    pixels[start..end].shuffle(rng);
}

/// `out` is `segment` sorted by `key` with its middle shuffled: before
/// `shuffle_start` and from `shuffle_end` on it is the stable sort itself, and
/// between the two it holds the pixels of the stable sort's middle in some
/// order.
pub open spec fn is_glitch_of(out: Seq<Pixel>, segment: Seq<Pixel>, key: SortKey) -> bool {
    let sorted = stable_sorted(segment, key);
    let len = segment.len() as int;
    let start = shuffle_start(len);
    let end = shuffle_end(len);
    &&& out.len() == len
    &&& out.subrange(0, start) == sorted.subrange(0, start)
    &&& out.subrange(end, len) == sorted.subrange(end, len)
    &&& out.subrange(start, end).to_multiset() == sorted.subrange(start, end).to_multiset()
}

/// A sequence cut in three has the pixels of its three parts.
proof fn lemma_three_parts(s: Seq<Pixel>, a: int, b: int)
    requires
        0 <= a <= b <= s.len(),
    ensures
        s.to_multiset() == s.subrange(0, a).to_multiset().add(
            s.subrange(a, b).to_multiset(),
        ).add(s.subrange(b, s.len() as int).to_multiset()),
{
    let head = s.subrange(0, a);
    let middle = s.subrange(a, b);
    let tail = s.subrange(b, s.len() as int);
    assert(s == (head + middle) + tail);
    vstd::seq_lib::lemma_multiset_commutative(head, middle);
    vstd::seq_lib::lemma_multiset_commutative(head + middle, tail);
}

/// A sorted and shuffled segment holds the pixels of the segment, each as
/// often: none is made, lost or doubled.
pub proof fn lemma_glitch_permutes(out: Seq<Pixel>, segment: Seq<Pixel>, key: SortKey)
    requires
        is_glitch_of(out, segment, key),
    ensures
        out.to_multiset() == segment.to_multiset(),
{
    let sorted = stable_sorted(segment, key);
    let len = segment.len() as int;
    lemma_stable_sorted_permutes(segment, key);
    lemma_three_parts(out, shuffle_start(len), shuffle_end(len));
    lemma_three_parts(sorted, shuffle_start(len), shuffle_end(len));
}

/// The head and the tail of a sorted and shuffled segment are ordered by the
/// key; only the middle may leave the order.
pub proof fn lemma_glitch_extremes_ordered(out: Seq<Pixel>, segment: Seq<Pixel>, key: SortKey)
    requires
        is_glitch_of(out, segment, key),
    ensures
        is_ordered(out.subrange(0, shuffle_start(segment.len() as int)), key),
        is_ordered(out.subrange(shuffle_end(segment.len() as int), segment.len() as int), key),
{
    let sorted = stable_sorted(segment, key);
    let len = segment.len() as int;
    let start = shuffle_start(len);
    let end = shuffle_end(len);
    lemma_stable_sorted_ordered(segment, key);
    lemma_stable_sorted_permutes(segment, key);
    let head = sorted.subrange(0, start);
    let tail = sorted.subrange(end, len);
    assert forall|i: int, j: int| 0 <= i <= j < head.len() implies key.spec_rank(head[i])
        <= key.spec_rank(head[j]) by {
        assert(head[i] == sorted[i] && head[j] == sorted[j]);
    }
    assert forall|i: int, j: int| 0 <= i <= j < tail.len() implies key.spec_rank(tail[i])
        <= key.spec_rank(tail[j]) by {
        assert(tail[i] == sorted[end + i] && tail[j] == sorted[end + j]);
    }
}

/// The three parts of a sorted and shuffled segment stand in order: no pixel
/// of the head has a larger rank than a pixel after the head, and no pixel
/// before the tail has a larger rank than a pixel of the tail.
pub proof fn lemma_glitch_parts_in_order(
    out: Seq<Pixel>,
    segment: Seq<Pixel>,
    key: SortKey,
    i: int,
    j: int,
)
    requires
        is_glitch_of(out, segment, key),
        0 <= i <= j < out.len(),
        i < shuffle_start(segment.len() as int) || shuffle_end(segment.len() as int) <= j,
    ensures
        key.spec_rank(out[i]) <= key.spec_rank(out[j]),
{
    let sorted = stable_sorted(segment, key);
    lemma_stable_sorted_ordered(segment, key);
    lemma_stable_sorted_permutes(segment, key);
    let a = lemma_place_in_sorted(out, segment, key, i);
    let b = lemma_place_in_sorted(out, segment, key, j);
    assert(key.spec_rank(sorted[a]) <= key.spec_rank(sorted[b]));
}

/// A pixel of a sorted and shuffled segment is a pixel of the stable sort,
/// and stands there in the same part: head, middle or tail.
proof fn lemma_place_in_sorted(out: Seq<Pixel>, segment: Seq<Pixel>, key: SortKey, i: int) -> (k:
    int)
    requires
        is_glitch_of(out, segment, key),
        0 <= i < out.len(),
    ensures
        0 <= k < segment.len(),
        stable_sorted(segment, key)[k] == out[i],
        i < shuffle_start(segment.len() as int) ==> k == i,
        shuffle_end(segment.len() as int) <= i ==> k == i,
        shuffle_start(segment.len() as int) <= i < shuffle_end(segment.len() as int)
            ==> shuffle_start(segment.len() as int) <= k < shuffle_end(segment.len() as int),
{
    let sorted = stable_sorted(segment, key);
    let len = segment.len() as int;
    let start = shuffle_start(len);
    let end = shuffle_end(len);
    lemma_stable_sorted_permutes(segment, key);
    if i < start {
        assert(out.subrange(0, start)[i] == sorted.subrange(0, start)[i]);
        i
    } else if i >= end {
        assert(out.subrange(end, len)[i - end] == sorted.subrange(end, len)[i - end]);
        i
    } else {
        let mine = out.subrange(start, end);
        let theirs = sorted.subrange(start, end);
        mine.to_multiset_ensures();
        theirs.to_multiset_ensures();
        assert(mine[i - start] == out[i]);
        assert(mine.contains(out[i]));
        assert(mine.to_multiset().count(out[i]) > 0);
        assert(theirs.to_multiset().count(out[i]) > 0);
        assert(theirs.contains(out[i]));
        let at = choose|at: int| 0 <= at < theirs.len() && theirs[at] == out[i];
        start + at
    }
}

/// A segment whose middle has at most one pixel is not shuffled at all: it
/// comes out as its stable sort. This is so for the empty segment and for
/// segments of one or two pixels.
pub proof fn lemma_short_middle_stays_sorted(out: Seq<Pixel>, segment: Seq<Pixel>, key: SortKey)
    requires
        is_glitch_of(out, segment, key),
        shuffle_end(segment.len() as int) - shuffle_start(segment.len() as int) <= 1,
    ensures
        out == stable_sorted(segment, key),
{
    let sorted = stable_sorted(segment, key);
    let len = segment.len() as int;
    let start = shuffle_start(len);
    let end = shuffle_end(len);
    lemma_stable_sorted_permutes(segment, key);
    assert forall|i: int| 0 <= i < len implies out[i] == sorted[i] by {
        let k = lemma_place_in_sorted(out, segment, key, i);
        assert(k == i);
    }
    assert(out =~= sorted);
}

/// Two runs on the same segment agree on the head and on the tail, and their
/// middles hold the same pixels: they differ by the shuffle alone.
pub proof fn lemma_glitches_agree(
    first: Seq<Pixel>,
    second: Seq<Pixel>,
    segment: Seq<Pixel>,
    key: SortKey,
)
    requires
        is_glitch_of(first, segment, key),
        is_glitch_of(second, segment, key),
    ensures
        first.len() == second.len(),
        first.subrange(0, shuffle_start(segment.len() as int)) == second.subrange(
            0,
            shuffle_start(segment.len() as int),
        ),
        first.subrange(shuffle_end(segment.len() as int), segment.len() as int)
            == second.subrange(shuffle_end(segment.len() as int), segment.len() as int),
        first.subrange(
            shuffle_start(segment.len() as int),
            shuffle_end(segment.len() as int),
        ).to_multiset() == second.subrange(
            shuffle_start(segment.len() as int),
            shuffle_end(segment.len() as int),
        ).to_multiset(),
{
}

/// Sorts `segment` by `key`, keeping pixels of equal rank in their order, and
/// then shuffles the middle of the sorted segment with `rng`.
pub fn sort_segment(segment: &Vec<Pixel>, key: SortKey, rng: &mut rand::rngs::ThreadRng) -> (out:
    Vec<Pixel>)
    ensures
        is_glitch_of(out@, segment@, key),
        out@.to_multiset() == segment@.to_multiset(),
        is_ordered(out@.subrange(0, shuffle_start(segment@.len() as int)), key),
        is_ordered(
            out@.subrange(shuffle_end(segment@.len() as int), segment@.len() as int),
            key,
        ),
{
    let mut out = stable_sort(segment, key);
    proof {
        lemma_stable_sorted_permutes(segment@, key);
    }
    let (start, end) = shuffle_bounds(out.len());
    shuffle_range(&mut out, start, end, rng);
    proof {
        lemma_glitch_permutes(out@, segment@, key);
        lemma_glitch_extremes_ordered(out@, segment@, key);
    }
    out
}

} // verus!
