//! Stable sorting of pixels by one channel.
//!
//! A pixel's rank under a sort key is a number from 0 to 255. The stable sort
//! of a sequence is defined bucket by bucket: first the pixels of rank 0 in
//! the order in which they stood, then those of rank 1, and so on. The lemmas
//! below show that this is the one ordered arrangement that keeps pixels of
//! equal rank in the order in which they stood.

use crate::pixel::{Channel, Pixel};
use vstd::prelude::*;

verus! {

/// Whether small or large channel values come first.
#[derive(Clone, Copy, Debug, PartialEq, Eq, Structural)]
pub enum Direction {
    Ascending,
    Descending,
}

/// The channel that segments are sorted by, and the direction.
#[derive(Clone, Copy, Debug, PartialEq, Eq, Structural)]
pub struct SortKey {
    pub channel: Channel,
    pub direction: Direction,
}

impl SortKey {
    /// The place of a pixel in the order: a pixel of smaller rank comes
    /// first. Ascending, the rank is the channel value; descending, it is
    /// the distance of the value from 255.
    pub open spec fn spec_rank(&self, p: Pixel) -> u8 {
        match self.direction {
            Direction::Ascending => p.spec_channel(self.channel),
            Direction::Descending => (255 - p.spec_channel(self.channel)) as u8,
        }
    }

    /// The place of a pixel in the order.
    #[verifier::when_used_as_spec(spec_rank)]
    pub fn rank(&self, p: Pixel) -> (r: u8)
        ensures
            r == self.spec_rank(p),
    {
        match self.direction {
            Direction::Ascending => p.channel(self.channel),
            Direction::Descending => 255 - p.channel(self.channel),
        }
    }
}

/// No pixel stands before a pixel of smaller rank.
pub open spec fn is_ordered(s: Seq<Pixel>, key: SortKey) -> bool {
    forall|i: int, j: int| 0 <= i <= j < s.len() ==> key.spec_rank(s[i]) <= key.spec_rank(s[j])
}

/// The test "has rank `r`".
pub open spec fn has_rank(key: SortKey, r: int) -> spec_fn(Pixel) -> bool {
    |p: Pixel| key.spec_rank(p) == r
}

/// The test "has a rank below `r`".
pub open spec fn ranks_below(key: SortKey, r: int) -> spec_fn(Pixel) -> bool {
    |p: Pixel| key.spec_rank(p) < r
}

/// The pixels of `s` that have rank `r`, in the order in which they stand in `s`.
pub open spec fn bucket(s: Seq<Pixel>, key: SortKey, r: int) -> Seq<Pixel> {
    s.filter(has_rank(key, r))
}

/// The buckets of rank 0 up to `r - 1`, one after the other.
pub open spec fn buckets_below(s: Seq<Pixel>, key: SortKey, r: int) -> Seq<Pixel>
    decreases r,
{
    if r <= 0 {
        Seq::empty()
    } else {
        buckets_below(s, key, r - 1) + bucket(s, key, r - 1)
    }
}

/// The stable sort of `s` by `key`: all its buckets in the order of their ranks.
pub open spec fn stable_sorted(s: Seq<Pixel>, key: SortKey) -> Seq<Pixel> {
    buckets_below(s, key, 256)
}

proof fn lemma_filter_none<A>(s: Seq<A>, pred: spec_fn(A) -> bool)
    requires
        forall|i: int| 0 <= i < s.len() ==> !pred(#[trigger] s[i]),
    ensures
        s.filter(pred) == Seq::<A>::empty(),
    decreases s.len(),
{
    if s.len() == 0 {
        reveal(Seq::filter);
    } else {
        let rest = s.drop_last();
        lemma_filter_none(rest, pred);
        rest.lemma_filter_push(s.last(), pred);
        assert(rest.push(s.last()) == s);
    }
}

proof fn lemma_filter_every<A>(s: Seq<A>, pred: spec_fn(A) -> bool)
    requires
        forall|i: int| 0 <= i < s.len() ==> pred(#[trigger] s[i]),
    ensures
        s.filter(pred) == s,
    decreases s.len(),
{
    if s.len() == 0 {
        reveal(Seq::filter);
    } else {
        let rest = s.drop_last();
        lemma_filter_every(rest, pred);
        rest.lemma_filter_push(s.last(), pred);
        assert(rest.push(s.last()) == s);
    }
}

/// In an ordered sequence the pixels of rank below `r` followed by those of
/// rank `r` are the pixels of rank below `r + 1`.
proof fn lemma_ordered_next_bucket(a: Seq<Pixel>, key: SortKey, r: int)
    requires
        is_ordered(a, key),
    ensures
        a.filter(ranks_below(key, r)) + bucket(a, key, r) == a.filter(ranks_below(key, r + 1)),
    decreases a.len(),
{
    let below = ranks_below(key, r);
    let exact = has_rank(key, r);
    let upto = ranks_below(key, r + 1);
    if a.len() == 0 {
        reveal(Seq::filter);
        assert(a.filter(below) + a.filter(exact) == a.filter(upto));
    } else {
        let rest = a.drop_last();
        let x = a.last();
        assert(rest.push(x) == a);
        assert(is_ordered(rest, key)) by {
            assert forall|i: int, j: int| 0 <= i <= j < rest.len() implies key.spec_rank(rest[i])
                <= key.spec_rank(rest[j]) by {
                assert(rest[i] == a[i] && rest[j] == a[j]);
            }
        }
        lemma_ordered_next_bucket(rest, key, r);
        rest.lemma_filter_push(x, below);
        rest.lemma_filter_push(x, exact);
        rest.lemma_filter_push(x, upto);
        if key.spec_rank(x) == r {
            assert(rest.filter(below) + rest.filter(exact).push(x) == (rest.filter(below)
                + rest.filter(exact)).push(x));
        } else if key.spec_rank(x) < r {
            assert forall|i: int| 0 <= i < rest.len() implies !exact(#[trigger] rest[i]) by {
                assert(rest[i] == a[i]);
                assert(key.spec_rank(a[i]) <= key.spec_rank(a[a.len() - 1]));
            }
            lemma_filter_none(rest, exact);
            assert(rest.filter(below) + Seq::<Pixel>::empty() == rest.filter(below));
            assert(rest.filter(below).push(x) + Seq::<Pixel>::empty() == rest.filter(below).push(
                x,
            ));
        }
    }
}

/// An ordered sequence is made of its buckets: those below `r` are its
/// pixels of rank below `r`.
proof fn lemma_ordered_is_buckets(a: Seq<Pixel>, key: SortKey, r: int)
    requires
        is_ordered(a, key),
        0 <= r,
    ensures
        buckets_below(a, key, r) == a.filter(ranks_below(key, r)),
    decreases r,
{
    if r == 0 {
        lemma_filter_none(a, ranks_below(key, 0));
    } else {
        lemma_ordered_is_buckets(a, key, r - 1);
        lemma_ordered_next_bucket(a, key, r - 1);
    }
}

/// Sequences with the same buckets have the same sort.
proof fn lemma_same_buckets(a: Seq<Pixel>, b: Seq<Pixel>, key: SortKey, r: int)
    requires
        forall|k: int| 0 <= k < r ==> #[trigger] bucket(a, key, k) == bucket(b, key, k),
    ensures
        buckets_below(a, key, r) == buckets_below(b, key, r),
    decreases r,
{
    if r > 0 {
        lemma_same_buckets(a, b, key, r - 1);
        assert(bucket(a, key, r - 1) == bucket(b, key, r - 1));
    }
}

/// The stable sort is the only ordered arrangement that keeps every bucket:
/// an ordered sequence with the buckets of `s` is the stable sort of `s`.
pub proof fn lemma_stable_sort_unique(out: Seq<Pixel>, s: Seq<Pixel>, key: SortKey)
    requires
        is_ordered(out, key),
        forall|r: int| 0 <= r < 256 ==> #[trigger] bucket(out, key, r) == bucket(s, key, r),
    ensures
        out == stable_sorted(s, key),
{
    lemma_ordered_is_buckets(out, key, 256);
    lemma_filter_every(out, ranks_below(key, 256));
    lemma_same_buckets(out, s, key, 256);
}

/// The buckets below `r` are ordered and hold ranks below `r` only.
proof fn lemma_buckets_below_ordered(s: Seq<Pixel>, key: SortKey, r: int)
    ensures
        is_ordered(buckets_below(s, key, r), key),
        forall|i: int|
            0 <= i < buckets_below(s, key, r).len() ==> key.spec_rank(
                #[trigger] buckets_below(s, key, r)[i],
            ) < r,
    decreases r,
{
    if r > 0 {
        lemma_buckets_below_ordered(s, key, r - 1);
        let head = buckets_below(s, key, r - 1);
        let tail = bucket(s, key, r - 1);
        let all = buckets_below(s, key, r);
        assert(all == head + tail);
        assert forall|i: int| 0 <= i < tail.len() implies key.spec_rank(#[trigger] tail[i]) == r
            - 1 by {
            s.lemma_filter_pred(has_rank(key, r - 1), i);
        }
        assert forall|i: int| 0 <= i < all.len() implies key.spec_rank(#[trigger] all[i]) < r by {
            if i < head.len() {
                assert(all[i] == head[i]);
            } else {
                assert(all[i] == tail[i - head.len()]);
            }
        }
        assert forall|i: int, j: int| 0 <= i <= j < all.len() implies key.spec_rank(all[i])
            <= key.spec_rank(all[j]) by {
            if j < head.len() {
                assert(all[i] == head[i] && all[j] == head[j]);
            } else if i < head.len() {
                assert(all[i] == head[i] && all[j] == tail[j - head.len()]);
            } else {
                assert(all[i] == tail[i - head.len()] && all[j] == tail[j - head.len()]);
            }
        }
    }
}

/// The stable sort is ordered.
pub proof fn lemma_stable_sorted_ordered(s: Seq<Pixel>, key: SortKey)
    ensures
        is_ordered(stable_sorted(s, key), key),
{
    lemma_buckets_below_ordered(s, key, 256);
}

/// Taking the bucket of rank `k` out of the buckets below `r` gives the
/// bucket of rank `k` of the sequence itself, or nothing if `k` is not below `r`.
proof fn lemma_bucket_of_buckets(s: Seq<Pixel>, key: SortKey, r: int, k: int)
    ensures
        bucket(buckets_below(s, key, r), key, k) == if 0 <= k < r {
            bucket(s, key, k)
        } else {
            Seq::<Pixel>::empty()
        },
    decreases r,
{
    let pred = has_rank(key, k);
    if r <= 0 {
        lemma_filter_none(buckets_below(s, key, r), pred);
    } else {
        lemma_bucket_of_buckets(s, key, r - 1, k);
        let head = buckets_below(s, key, r - 1);
        let tail = bucket(s, key, r - 1);
        Seq::filter_distributes_over_add(head, tail, pred);
        assert forall|i: int| 0 <= i < tail.len() implies key.spec_rank(#[trigger] tail[i]) == r
            - 1 by {
            s.lemma_filter_pred(has_rank(key, r - 1), i);
        }
        if k == r - 1 {
            lemma_filter_every(tail, pred);
            assert(head.filter(pred) == Seq::<Pixel>::empty());
            assert(Seq::<Pixel>::empty() + tail == tail);
        } else {
            lemma_filter_none(tail, pred);
            assert(head.filter(pred) + Seq::<Pixel>::empty() == head.filter(pred));
        }
    }
}

/// The stable sort keeps every bucket: pixels of equal rank stay in the
/// order in which they stood.
pub proof fn lemma_stable_sorted_keeps_buckets(s: Seq<Pixel>, key: SortKey, r: int)
    ensures
        bucket(stable_sorted(s, key), key, r) == bucket(s, key, r),
{
    lemma_bucket_of_buckets(s, key, 256, r);
    if !(0 <= r < 256) {
        lemma_filter_none(s, has_rank(key, r));
    }
}

/// The pixels of rank below `r` and those of rank `r` make up, as a
/// multiset, the pixels of rank below `r + 1`.
proof fn lemma_next_bucket_multiset(s: Seq<Pixel>, key: SortKey, r: int)
    ensures
        s.filter(ranks_below(key, r)).to_multiset().add(bucket(s, key, r).to_multiset())
            == s.filter(ranks_below(key, r + 1)).to_multiset(),
    decreases s.len(),
{
    broadcast use vstd::seq_lib::group_to_multiset_ensures;

    let below = ranks_below(key, r);
    let exact = has_rank(key, r);
    let upto = ranks_below(key, r + 1);
    if s.len() == 0 {
        reveal(Seq::filter);
        assert(s.filter(below).to_multiset().add(s.filter(exact).to_multiset()) =~= s.filter(
            upto,
        ).to_multiset());
    } else {
        let rest = s.drop_last();
        let x = s.last();
        assert(rest.push(x) == s);
        lemma_next_bucket_multiset(rest, key, r);
        rest.lemma_filter_push(x, below);
        rest.lemma_filter_push(x, exact);
        rest.lemma_filter_push(x, upto);
        assert(s.filter(below).to_multiset().add(s.filter(exact).to_multiset()) =~= s.filter(
            upto,
        ).to_multiset());
    }
}

proof fn lemma_buckets_below_multiset(s: Seq<Pixel>, key: SortKey, r: int)
    requires
        0 <= r,
    ensures
        buckets_below(s, key, r).to_multiset() == s.filter(ranks_below(key, r)).to_multiset(),
    decreases r,
{
    if r == 0 {
        lemma_filter_none(s, ranks_below(key, 0));
    } else {
        lemma_buckets_below_multiset(s, key, r - 1);
        vstd::seq_lib::lemma_multiset_commutative(
            buckets_below(s, key, r - 1),
            bucket(s, key, r - 1),
        );
        lemma_next_bucket_multiset(s, key, r - 1);
    }
}

/// The stable sort holds the same pixels as the sequence, each as often.
pub proof fn lemma_stable_sorted_permutes(s: Seq<Pixel>, key: SortKey)
    ensures
        stable_sorted(s, key).to_multiset() == s.to_multiset(),
        stable_sorted(s, key).len() == s.len(),
{
    lemma_buckets_below_multiset(s, key, 256);
    lemma_filter_every(s, ranks_below(key, 256));
    stable_sorted(s, key).to_multiset_ensures();
    s.to_multiset_ensures();
}

/// Merges two ordered sequences into one. Where ranks are equal the pixels
/// of `left` come before those of `right`.
fn merge(left: &Vec<Pixel>, right: &Vec<Pixel>, key: SortKey) -> (out: Vec<Pixel>)
    requires
        is_ordered(left@, key),
        is_ordered(right@, key),
    ensures
        is_ordered(out@, key),
        out@.len() == left@.len() + right@.len(),
        forall|r: int| #[trigger]
            bucket(out@, key, r) == bucket(left@, key, r) + bucket(right@, key, r),
{
    let mut out: Vec<Pixel> = Vec::with_capacity(left.len());
    let mut i: usize = 0;
    let mut j: usize = 0;
    proof {
        assert(left@.take(0) == Seq::<Pixel>::empty());
        assert(right@.take(0) == Seq::<Pixel>::empty());
        assert forall|r: int| #[trigger]
            bucket(out@, key, r) == bucket(left@.take(0), key, r) + bucket(
                right@.take(0),
                key,
                r,
            ) by {
            lemma_filter_none(out@, has_rank(key, r));
            lemma_filter_none(left@.take(0), has_rank(key, r));
        }
    }
    while i < left.len() || j < right.len()
        invariant
            i <= left.len(),
            j <= right.len(),
            out@.len() == i + j,
            is_ordered(left@, key),
            is_ordered(right@, key),
            is_ordered(out@, key),
            forall|k: int|
                0 <= k < out@.len() && i < left@.len() ==> key.spec_rank(#[trigger] out@[k])
                    <= key.spec_rank(left@[i as int]),
            forall|k: int|
                0 <= k < out@.len() && j < right@.len() ==> key.spec_rank(#[trigger] out@[k])
                    <= key.spec_rank(right@[j as int]),
            forall|k: int|
                0 <= k < j && i < left@.len() ==> key.spec_rank(#[trigger] right@[k])
                    < key.spec_rank(left@[i as int]),
            forall|r: int| #[trigger]
                bucket(out@, key, r) == bucket(left@.take(i as int), key, r) + bucket(
                    right@.take(j as int),
                    key,
                    r,
                ),
        decreases left.len() - i + (right.len() - j),
    {
        let ghost before = out@;
        let take_left = if i == left.len() {
            false
        } else if j == right.len() {
            true
        } else {
            key.rank(left[i]) <= key.rank(right[j])
        };
        if take_left {
            let x = left[i];
            out.push(x);
            proof {
                let lt = left@.take(i as int);
                let rt = right@.take(j as int);
                assert(left@.take(i + 1) == lt.push(x));
                assert forall|r: int| #[trigger]
                    bucket(out@, key, r) == bucket(left@.take(i + 1), key, r) + bucket(
                        rt,
                        key,
                        r,
                    ) by {
                    let pred = has_rank(key, r);
                    assert(bucket(before, key, r) == bucket(lt, key, r) + bucket(rt, key, r));
                    before.lemma_filter_push(x, pred);
                    lt.lemma_filter_push(x, pred);
                    if key.spec_rank(x) == r {
                        assert forall|k: int| 0 <= k < rt.len() implies !pred(#[trigger] rt[k]) by {
                            assert(rt[k] == right@[k]);
                        }
                        lemma_filter_none(rt, pred);
                        assert((lt.filter(pred) + Seq::<Pixel>::empty()).push(x) == lt.filter(
                            pred,
                        ).push(x) + Seq::<Pixel>::empty());
                    }
                }
                assert forall|a: int, b: int| 0 <= a <= b < out@.len() implies key.spec_rank(
                    out@[a],
                ) <= key.spec_rank(out@[b]) by {
                    if b < before.len() {
                        assert(out@[a] == before[a] && out@[b] == before[b]);
                    } else if a < before.len() {
                        assert(out@[a] == before[a]);
                    }
                }
                assert forall|k: int|
                    0 <= k < out@.len() && i + 1 < left@.len() implies key.spec_rank(
                    #[trigger] out@[k],
                ) <= key.spec_rank(left@[i + 1]) by {
                    assert(key.spec_rank(left@[i as int]) <= key.spec_rank(left@[i + 1]));
                    if k < before.len() {
                        assert(out@[k] == before[k]);
                    }
                }
                assert forall|k: int|
                    0 <= k < out@.len() && j < right@.len() implies key.spec_rank(
                    #[trigger] out@[k],
                ) <= key.spec_rank(right@[j as int]) by {
                    if k < before.len() {
                        assert(out@[k] == before[k]);
                    }
                }
                assert forall|k: int| 0 <= k < j && i + 1 < left@.len() implies key.spec_rank(
                    #[trigger] right@[k],
                ) < key.spec_rank(left@[i + 1]) by {
                    assert(key.spec_rank(left@[i as int]) <= key.spec_rank(left@[i + 1]));
                }
            }
            i += 1;
        } else {
            let y = right[j];
            out.push(y);
            proof {
                let lt = left@.take(i as int);
                let rt = right@.take(j as int);
                assert(right@.take(j + 1) == rt.push(y));
                assert forall|r: int| #[trigger]
                    bucket(out@, key, r) == bucket(lt, key, r) + bucket(
                        right@.take(j + 1),
                        key,
                        r,
                    ) by {
                    let pred = has_rank(key, r);
                    assert(bucket(before, key, r) == bucket(lt, key, r) + bucket(rt, key, r));
                    before.lemma_filter_push(y, pred);
                    rt.lemma_filter_push(y, pred);
                    if key.spec_rank(y) == r {
                        assert((lt.filter(pred) + rt.filter(pred)).push(y) == lt.filter(pred)
                            + rt.filter(pred).push(y));
                    }
                }
                assert forall|a: int, b: int| 0 <= a <= b < out@.len() implies key.spec_rank(
                    out@[a],
                ) <= key.spec_rank(out@[b]) by {
                    if b < before.len() {
                        assert(out@[a] == before[a] && out@[b] == before[b]);
                    } else if a < before.len() {
                        assert(out@[a] == before[a]);
                    }
                }
                assert forall|k: int|
                    0 <= k < out@.len() && i < left@.len() implies key.spec_rank(
                    #[trigger] out@[k],
                ) <= key.spec_rank(left@[i as int]) by {
                    if k < before.len() {
                        assert(out@[k] == before[k]);
                    }
                }
                assert forall|k: int|
                    0 <= k < out@.len() && j + 1 < right@.len() implies key.spec_rank(
                    #[trigger] out@[k],
                ) <= key.spec_rank(right@[j + 1]) by {
                    assert(key.spec_rank(right@[j as int]) <= key.spec_rank(right@[j + 1]));
                    if k < before.len() {
                        assert(out@[k] == before[k]);
                    }
                }
            }
            j += 1;
        }
    }
    proof {
        assert(left@.take(i as int) == left@);
        assert(right@.take(j as int) == right@);
    }
    out
}

/// Sorts the pixels of `v` from position `lo` up to `hi` into a new vector,
/// by merging its two sorted halves.
fn sort_range(v: &Vec<Pixel>, lo: usize, hi: usize, key: SortKey) -> (out: Vec<Pixel>)
    requires
        lo <= hi <= v@.len(),
    ensures
        is_ordered(out@, key),
        out@.len() == hi - lo,
        forall|r: int| #[trigger]
            bucket(out@, key, r) == bucket(v@.subrange(lo as int, hi as int), key, r),
    decreases hi - lo,
{
    if hi - lo <= 1 {
        let mut out: Vec<Pixel> = Vec::new();
        if lo < hi {
            out.push(v[lo]);
        }
        assert(out@ == v@.subrange(lo as int, hi as int));
        out
    } else {
        let mid = lo + (hi - lo) / 2;
        let left = sort_range(v, lo, mid, key);
        let right = sort_range(v, mid, hi, key);
        let out = merge(&left, &right, key);
        proof {
            let a = v@.subrange(lo as int, mid as int);
            let b = v@.subrange(mid as int, hi as int);
            assert(a + b == v@.subrange(lo as int, hi as int));
            assert forall|r: int| #[trigger]
                bucket(out@, key, r) == bucket(v@.subrange(lo as int, hi as int), key, r) by {
                assert(bucket(left@, key, r) == bucket(a, key, r));
                assert(bucket(right@, key, r) == bucket(b, key, r));
                Seq::filter_distributes_over_add(a, b, has_rank(key, r));
            }
        }
        out
    }
}

/// Sorts `pixels` by `key`, keeping pixels of equal rank in the order in
/// which they stood.
pub fn stable_sort(pixels: &Vec<Pixel>, key: SortKey) -> (out: Vec<Pixel>)
    ensures
        out@ == stable_sorted(pixels@, key),
{
    let out = sort_range(pixels, 0, pixels.len(), key);
    proof {
        assert(pixels@.subrange(0, pixels@.len() as int) == pixels@);
        lemma_stable_sort_unique(out@, pixels@, key);
    }
    out
}

} // verus!
