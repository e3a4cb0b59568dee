//! One row: the walk that groups sortable pixels into segments, hands each
//! segment to the sorter, and writes the row out again around the pixels
//! that are not sortable.

use crate::pixel::{
    append_pixel, append_pixels, lemma_pack_concat, lemma_unpack_pack, pack, pixels_of,
    read_pixel, unpack, Pixel, PixelFormat,
};
use crate::segment::{is_glitch_of, shuffle_end, shuffle_start, sort_segment};
use crate::sort::SortKey;
use vstd::prelude::*;

verus! {

/// Row `row` of a row-major sequence that is `width` items wide.
pub open spec fn row_of<T>(s: Seq<T>, width: int, row: int) -> Seq<T> {
    s.subrange(row * width, (row + 1) * width)
}

/// The end of the run of sortable pixels that holds position `i`: the first
/// position from `i` on that is not sortable, or the length of the row.
pub open spec fn run_end(mask: Seq<bool>, i: int) -> int
    decreases mask.len() - i,
{
    if 0 <= i < mask.len() && mask[i] {
        run_end(mask, i + 1)
    } else {
        i
    }
}

/// A segment begins at `i`: the pixel at `i` is sortable and the one before
/// it, if there is one, is not.
pub open spec fn starts_run(mask: Seq<bool>, i: int) -> bool {
    0 <= i < mask.len() && mask[i] && (i == 0 || !mask[i - 1])
}

/// `out` is the row `source` after the sort: pixels that are not sortable
/// stand where they stood, and each segment, a run of sortable pixels that
/// cannot be made longer, has been sorted and shuffled in its own place.
pub open spec fn is_glitched_row(
    out: Seq<Pixel>,
    source: Seq<Pixel>,
    mask: Seq<bool>,
    key: SortKey,
) -> bool {
    &&& out.len() == source.len()
    &&& forall|i: int| 0 <= i < source.len() && !mask[i] ==> #[trigger] out[i] == source[i]
    &&& forall|i: int| #[trigger]
        starts_run(mask, i) ==> is_glitch_of(
            out.subrange(i, run_end(mask, i)),
            source.subrange(i, run_end(mask, i)),
            key,
        )
}

/// Two outputs for one row differ by the shuffles alone: they have the same
/// pixels wherever a pixel is not sortable, in the head and in the tail of
/// every segment, and the middles of a segment hold the same pixels in both.
pub open spec fn agree_up_to_shuffle(
    first: Seq<Pixel>,
    second: Seq<Pixel>,
    mask: Seq<bool>,
) -> bool {
    &&& first.len() == second.len()
    &&& forall|i: int| 0 <= i < first.len() && !mask[i] ==> #[trigger] first[i] == second[i]
    &&& forall|i: int| #[trigger]
        starts_run(mask, i) ==> {
            let end = run_end(mask, i);
            let from = i + shuffle_start(end - i);
            let to = i + shuffle_end(end - i);
            &&& first.subrange(i, from) == second.subrange(i, from)
            &&& first.subrange(to, end) == second.subrange(to, end)
            &&& first.subrange(from, to).to_multiset() == second.subrange(from, to).to_multiset()
        }
}

/// A segment cannot be made longer: from where it begins up to its end every
/// pixel is sortable, and the pixel at its end, if the row goes on, is not.
pub proof fn lemma_run_is_maximal(mask: Seq<bool>, i: int)
    requires
        starts_run(mask, i),
    ensures
        i < run_end(mask, i) <= mask.len(),
        forall|k: int| i <= k < run_end(mask, i) ==> mask[k],
        run_end(mask, i) == mask.len() || !mask[run_end(mask, i)],
{
    lemma_run_holds_sortable(mask, i);
}

proof fn lemma_run_holds_sortable(mask: Seq<bool>, i: int)
    requires
        0 <= i <= mask.len(),
    ensures
        i <= run_end(mask, i) <= mask.len(),
        0 <= i < mask.len() && mask[i] ==> i < run_end(mask, i),
        forall|k: int| i <= k < run_end(mask, i) ==> mask[k],
        run_end(mask, i) == mask.len() || !mask[run_end(mask, i)],
    decreases mask.len() - i,
{
    if i < mask.len() && mask[i] {
        lemma_run_holds_sortable(mask, i + 1);
    }
}

/// A run of sortable pixels from `start` that stops at `end` has its end there.
proof fn lemma_run_end(mask: Seq<bool>, start: int, end: int)
    requires
        0 <= start <= end <= mask.len(),
        forall|k: int| start <= k < end ==> mask[k],
        end == mask.len() || !mask[end],
    ensures
        run_end(mask, start) == end,
    decreases end - start,
{
    if start < end {
        lemma_run_end(mask, start + 1, end);
    }
}

/// Running the sort twice on one row gives outputs that differ by the
/// shuffles alone.
pub proof fn lemma_rows_agree(
    first: Seq<Pixel>,
    second: Seq<Pixel>,
    source: Seq<Pixel>,
    mask: Seq<bool>,
    key: SortKey,
)
    requires
        source.len() == mask.len(),
        is_glitched_row(first, source, mask, key),
        is_glitched_row(second, source, mask, key),
    ensures
        agree_up_to_shuffle(first, second, mask),
{
    assert forall|i: int| 0 <= i < first.len() && !mask[i] implies #[trigger] first[i]
        == second[i] by {
        assert(first[i] == source[i]);
        assert(second[i] == source[i]);
    }
    assert forall|i: int| #[trigger] starts_run(mask, i) implies ({
        let end = run_end(mask, i);
        let from = i + shuffle_start(end - i);
        let to = i + shuffle_end(end - i);
        &&& first.subrange(i, from) == second.subrange(i, from)
        &&& first.subrange(to, end) == second.subrange(to, end)
        &&& first.subrange(from, to).to_multiset() == second.subrange(from, to).to_multiset()
    }) by {
        lemma_run_holds_sortable(mask, i);
        let end = run_end(mask, i);
        let len = end - i;
        let a = shuffle_start(len);
        let b = shuffle_end(len);
        let one = first.subrange(i, end);
        let two = second.subrange(i, end);
        assert(is_glitch_of(one, source.subrange(i, end), key));
        assert(is_glitch_of(two, source.subrange(i, end), key));
        assert(one.subrange(0, a) == first.subrange(i, i + a));
        assert(two.subrange(0, a) == second.subrange(i, i + a));
        assert(one.subrange(b, len) == first.subrange(i + b, end));
        assert(two.subrange(b, len) == second.subrange(i + b, end));
        assert(one.subrange(a, b) == first.subrange(i + a, i + b));
        assert(two.subrange(a, b) == second.subrange(i + a, i + b));
    }
}

/// The first pixels of a row are done: `done` stops where a segment stops,
/// and as far as it goes it is the row after the sort.
spec fn is_glitched_prefix(
    done: Seq<Pixel>,
    source: Seq<Pixel>,
    mask: Seq<bool>,
    key: SortKey,
) -> bool {
    &&& done.len() <= source.len() == mask.len()
    &&& forall|k: int| 0 <= k < done.len() && !mask[k] ==> #[trigger] done[k] == source[k]
    &&& forall|k: int|
        #[trigger] starts_run(mask, k) && k < done.len() ==> run_end(mask, k) <= done.len()
            && is_glitch_of(
            done.subrange(k, run_end(mask, k)),
            source.subrange(k, run_end(mask, k)),
            key,
        )
    &&& done.to_multiset() == source.subrange(0, done.len() as int).to_multiset()
}

/// What is done grows by a whole segment.
proof fn lemma_extend_with_run(
    done: Seq<Pixel>,
    processed: Seq<Pixel>,
    source: Seq<Pixel>,
    mask: Seq<bool>,
    key: SortKey,
)
    requires
        is_glitched_prefix(done, source, mask, key),
        done.len() + processed.len() <= source.len(),
        forall|k: int| done.len() <= k < done.len() + processed.len() ==> mask[k],
        done.len() == 0 || !mask[done.len() - 1],
        done.len() + processed.len() == mask.len() || !mask[(done.len()
            + processed.len()) as int],
        is_glitch_of(
            processed,
            source.subrange(done.len() as int, (done.len() + processed.len()) as int),
            key,
        ),
    ensures
        is_glitched_prefix(done + processed, source, mask, key),
{
    let s = done.len() as int;
    let e = s + processed.len();
    let next = done + processed;
    lemma_run_end(mask, s, e);
    assert forall|k: int| 0 <= k < next.len() && !mask[k] implies #[trigger] next[k]
        == source[k] by {
        assert(next[k] == done[k]);
    }
    assert forall|k: int| #[trigger] starts_run(mask, k) && k < next.len() implies run_end(mask, k)
        <= next.len() && is_glitch_of(
        next.subrange(k, run_end(mask, k)),
        source.subrange(k, run_end(mask, k)),
        key,
    ) by {
        lemma_run_holds_sortable(mask, k);
        if k < s {
            assert(next.subrange(k, run_end(mask, k)) == done.subrange(k, run_end(mask, k)));
        } else {
            assert(k == s);
            assert(next.subrange(s, e) == processed);
        }
    }
    crate::segment::lemma_glitch_permutes(processed, source.subrange(s, e), key);
    vstd::seq_lib::lemma_multiset_commutative(done, processed);
    vstd::seq_lib::lemma_multiset_commutative(source.subrange(0, s), source.subrange(s, e));
    assert(source.subrange(0, s) + source.subrange(s, e) == source.subrange(0, e));
}

/// What is done grows by one pixel that is not sortable.
proof fn lemma_extend_with_boundary(
    done: Seq<Pixel>,
    source: Seq<Pixel>,
    mask: Seq<bool>,
    key: SortKey,
)
    requires
        is_glitched_prefix(done, source, mask, key),
        done.len() < source.len(),
        !mask[done.len() as int],
    ensures
        is_glitched_prefix(done.push(source[done.len() as int]), source, mask, key),
{
    let s = done.len() as int;
    let next = done.push(source[s]);
    assert forall|k: int| 0 <= k < next.len() && !mask[k] implies #[trigger] next[k]
        == source[k] by {
        if k < s {
            assert(next[k] == done[k]);
        }
    }
    assert forall|k: int| #[trigger] starts_run(mask, k) && k < next.len() implies run_end(mask, k)
        <= next.len() && is_glitch_of(
        next.subrange(k, run_end(mask, k)),
        source.subrange(k, run_end(mask, k)),
        key,
    ) by {
        lemma_run_holds_sortable(mask, k);
        assert(k < s);
        assert(next.subrange(k, run_end(mask, k)) == done.subrange(k, run_end(mask, k)));
    }
    vstd::seq_lib::to_multiset_build(done, source[s]);
    vstd::seq_lib::to_multiset_build(source.subrange(0, s), source[s]);
    assert(source.subrange(0, s).push(source[s]) == source.subrange(0, s + 1));
}

/// The segment that ends at `end` begins at the position returned.
proof fn lemma_find_run_start(mask: Seq<bool>, end: int) -> (start: int)
    requires
        0 < end <= mask.len(),
        mask[end - 1],
    ensures
        starts_run(mask, start),
        start < end,
        forall|k: int| start <= k < end ==> mask[k],
    decreases end,
{
    if end == 1 || !mask[end - 2] {
        end - 1
    } else {
        lemma_find_run_start(mask, end - 1)
    }
}

/// Up to any place where no segment is cut in two, the row after the sort is
/// done in the sense above.
proof fn lemma_row_prefix(
    out: Seq<Pixel>,
    source: Seq<Pixel>,
    mask: Seq<bool>,
    key: SortKey,
    n: int,
)
    requires
        source.len() == mask.len(),
        is_glitched_row(out, source, mask, key),
        0 <= n <= source.len(),
        n == 0 || n == source.len() || !mask[n - 1] || !mask[n],
    ensures
        is_glitched_prefix(out.subrange(0, n), source, mask, key),
    decreases n,
{
    if n == 0 {
        assert(out.subrange(0, 0) == source.subrange(0, 0));
    } else if !mask[n - 1] {
        lemma_row_prefix(out, source, mask, key, n - 1);
        lemma_extend_with_boundary(out.subrange(0, n - 1), source, mask, key);
        assert(out.subrange(0, n - 1).push(source[n - 1]) == out.subrange(0, n));
    } else {
        let start = lemma_find_run_start(mask, n);
        lemma_run_end(mask, start, n);
        lemma_row_prefix(out, source, mask, key, start);
        lemma_extend_with_run(
            out.subrange(0, start),
            out.subrange(start, n),
            source,
            mask,
            key,
        );
        assert(out.subrange(0, start) + out.subrange(start, n) == out.subrange(0, n));
    }
}

/// A row after the sort holds the pixels of the row before it, each as
/// often: no pixel is made, lost or doubled.
pub proof fn lemma_row_keeps_pixels(
    out: Seq<Pixel>,
    source: Seq<Pixel>,
    mask: Seq<bool>,
    key: SortKey,
)
    requires
        source.len() == mask.len(),
        is_glitched_row(out, source, mask, key),
    ensures
        out.to_multiset() == source.to_multiset(),
{
    lemma_row_prefix(out, source, mask, key, source.len() as int);
    assert(out.subrange(0, source.len() as int) == out);
    assert(source.subrange(0, source.len() as int) == source);
}

/// Sorts the pixels of `img_buf` from position `from` up to `to` as one row,
/// and returns the bytes of the sorted row.
fn sort_span(
    img_buf: &[u8],
    mask: &[bool],
    from: usize,
    to: usize,
    key: SortKey,
    format: PixelFormat,
    rng: &mut rand::rngs::ThreadRng,
) -> (out: Vec<u8>)
    requires
        from <= to <= mask@.len() <= pixels_of(img_buf@).len(),
    ensures
        out@ == pack(unpack(out@, format), format),
        is_glitched_row(
            unpack(out@, format),
            pixels_of(img_buf@).subrange(from as int, to as int),
            mask@.subrange(from as int, to as int),
            key,
        ),
        unpack(out@, format).to_multiset() == pixels_of(img_buf@).subrange(
            from as int,
            to as int,
        ).to_multiset(),
{
    let ghost source = pixels_of(img_buf@).subrange(from as int, to as int);
    let ghost flags = mask@.subrange(from as int, to as int);
    let ghost mut done: Seq<Pixel> = Seq::empty();
    let mut out: Vec<u8> = Vec::new();
    let mut segment: Vec<Pixel> = Vec::new();
    let mut i: usize = from;
    proof {
        assert(out@ =~= pack(done, format));
        assert(source.subrange(0, 0) == done);
    }
    while i < to
        invariant
            from <= i <= to <= mask@.len() <= pixels_of(img_buf@).len(),
            source == pixels_of(img_buf@).subrange(from as int, to as int),
            flags == mask@.subrange(from as int, to as int),
            out@ == pack(done, format),
            done.len() + segment@.len() == i - from,
            segment@ == source.subrange(done.len() as int, i - from),
            forall|k: int| done.len() <= k < i - from ==> flags[k],
            done.len() == 0 || !flags[done.len() - 1],
            is_glitched_prefix(done, source, flags, key),
        decreases to - i,
    {
        if mask[i] {
            let p = read_pixel(img_buf, i);
            segment.push(p);
            proof {
                assert(source.subrange(done.len() as int, i - from).push(source[i - from])
                    == source.subrange(done.len() as int, i - from + 1));
            }
        } else {
            if segment.len() > 0 {
                let processed = sort_segment(&segment, key, rng);
                append_pixels(&mut out, &processed, format);
                proof {
                    lemma_pack_concat(done, processed@, format);
                    lemma_extend_with_run(done, processed@, source, flags, key);
                    done = done + processed@;
                }
                segment.clear();
            }
            let p = read_pixel(img_buf, i);
            append_pixel(&mut out, p, format);
            proof {
                lemma_pack_concat(done, seq![p], format);
                lemma_extend_with_boundary(done, source, flags, key);
                assert(done + seq![p] == done.push(p));
                done = done.push(p);
                assert(source.subrange(done.len() as int, i + 1 - from) == segment@);
            }
        }
        i += 1;
    }
    if segment.len() > 0 {
        let processed = sort_segment(&segment, key, rng);
        append_pixels(&mut out, &processed, format);
        proof {
            lemma_pack_concat(done, processed@, format);
            lemma_extend_with_run(done, processed@, source, flags, key);
            done = done + processed@;
        }
    }
    proof {
        lemma_unpack_pack(done, format);
        assert(source.subrange(0, source.len() as int) == source);
    }
    out
}

/// Sorts row `row` of an image that is `img_width` pixels wide: walks the
/// row from left to right, gathers each run of sortable pixels into a segment,
/// sorts and shuffles the segment, and writes the row out in `format` with
/// every pixel that is not sortable in its place. The shuffles draw from a
/// generator of the calling thread that is made for this row.
pub fn sort_row(
    img_buf: &[u8],
    mask: &[bool],
    img_width: usize,
    row: usize,
    key: SortKey,
    format: PixelFormat,
) -> (out: Vec<u8>)
    requires
        (row + 1) * img_width <= mask@.len() <= pixels_of(img_buf@).len(),
    ensures
        out@ == pack(unpack(out@, format), format),
        is_glitched_row(
            unpack(out@, format),
            row_of(pixels_of(img_buf@), img_width as int, row as int),
            row_of(mask@, img_width as int, row as int),
            key,
        ),
        unpack(out@, format).to_multiset() == row_of(
            pixels_of(img_buf@),
            img_width as int,
            row as int,
        ).to_multiset(),
{
    assert(row * img_width + img_width == (row + 1) * img_width <= mask.len())
        by (nonlinear_arith)
        requires
            (row + 1) * img_width <= mask.len(),
    ;
    assert(0 <= row * img_width) by (nonlinear_arith);
    let from: usize = row * img_width;
    let to: usize = from + img_width;
    let mut rng = rand::thread_rng();
    sort_span(img_buf, mask, from, to, key, format, &mut rng)
}

} // verus!
