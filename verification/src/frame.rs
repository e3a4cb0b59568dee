//! The whole frame: the mask is built once, every row is sorted on its own,
//! and the rows are put together in their order.

use crate::mask::{build_mask, mask_of};
use crate::pixel::{
    lemma_pack_concat, lemma_unpack_pack, pack, pixels_of, unpack, Channel, Pixel, PixelFormat,
};
use crate::row::{
    agree_up_to_shuffle, is_glitched_row, lemma_row_keeps_pixels, lemma_rows_agree, row_of,
    sort_row,
};
use crate::sort::{Direction, SortKey};
use crate::threshold::{Predicate, Threshold};
use vstd::prelude::*;

verus! {

/// What one recompute needs besides the image: the channel and the rule that
/// decide which pixels are sortable, the key that segments are sorted by, and
/// the layout of the output.
#[derive(Clone, Copy, Debug, PartialEq, Eq, Structural)]
pub struct SortConfig {
    pub mask_channel: Channel,
    pub predicate: Predicate,
    pub key: SortKey,
    pub format: PixelFormat,
}

impl SortConfig {
    /// The usual setup with the given window: pixels whose red value lies
    /// outside the window are sortable, segments are sorted by blue with the
    /// largest value first, and the output is RGB.
    pub fn with_window(window: Threshold) -> (config: SortConfig)
        ensures
            config == (SortConfig {
                mask_channel: Channel::Red,
                predicate: Predicate::Dual(window),
                key: SortKey { channel: Channel::Blue, direction: Direction::Descending },
                format: PixelFormat::Rgb,
            }),
    {
        SortConfig {
            mask_channel: Channel::Red,
            predicate: Predicate::Dual(window),
            key: SortKey { channel: Channel::Blue, direction: Direction::Descending },
            format: PixelFormat::Rgb,
        }
    }
}

/// `out` is the frame `source` after the sort: it has as many pixels, and
/// each of its rows is the row of `source` after the sort. No segment reaches
/// from one row into the next.
pub open spec fn is_glitched_frame(
    out: Seq<Pixel>,
    source: Seq<Pixel>,
    mask: Seq<bool>,
    width: int,
    height: int,
    key: SortKey,
) -> bool {
    &&& out.len() == width * height
    &&& forall|row: int|
        0 <= row < height ==> is_glitched_row(
            #[trigger] row_of(out, width, row),
            row_of(source, width, row),
            row_of(mask, width, row),
            key,
        )
}

/// Every row of a frame after the sort holds the pixels of the same row
/// before it, each as often: no pixel is made, lost, doubled or moved to
/// another row.
pub proof fn lemma_frame_keeps_pixels(
    out: Seq<Pixel>,
    source: Seq<Pixel>,
    mask: Seq<bool>,
    width: int,
    height: int,
    key: SortKey,
)
    requires
        0 <= width,
        0 <= height,
        source.len() == width * height,
        mask.len() == width * height,
        is_glitched_frame(out, source, mask, width, height, key),
    ensures
        forall|row: int|
            0 <= row < height ==> (#[trigger] row_of(out, width, row)).to_multiset() == row_of(
                source,
                width,
                row,
            ).to_multiset(),
{
    assert forall|row: int| 0 <= row < height implies (#[trigger] row_of(
        out,
        width,
        row,
    )).to_multiset() == row_of(source, width, row).to_multiset() by {
        assert(0 <= row * width && (row + 1) * width == row * width + width && (row + 1) * width
            <= width * height) by (nonlinear_arith)
            requires
                0 <= row < height,
                0 <= width,
        ;
        lemma_row_keeps_pixels(
            row_of(out, width, row),
            row_of(source, width, row),
            row_of(mask, width, row),
            key,
        );
    }
}

/// Running the sort twice on one image with one threshold gives frames that
/// differ by the shuffles alone: row by row they agree on every pixel that
/// is not sortable and on the head and tail of every segment, and the
/// middles of a segment hold the same pixels in both.
pub proof fn lemma_reruns_agree(
    first: Seq<Pixel>,
    second: Seq<Pixel>,
    source: Seq<Pixel>,
    mask: Seq<bool>,
    width: int,
    height: int,
    key: SortKey,
)
    requires
        0 <= width,
        0 <= height,
        source.len() == width * height,
        mask.len() == width * height,
        is_glitched_frame(first, source, mask, width, height, key),
        is_glitched_frame(second, source, mask, width, height, key),
    ensures
        first.len() == second.len(),
        forall|row: int|
            0 <= row < height ==> agree_up_to_shuffle(
                #[trigger] row_of(first, width, row),
                row_of(second, width, row),
                row_of(mask, width, row),
            ),
{
    assert forall|row: int| 0 <= row < height implies agree_up_to_shuffle(
        #[trigger] row_of(first, width, row),
        row_of(second, width, row),
        row_of(mask, width, row),
    ) by {
        assert(0 <= row * width && (row + 1) * width == row * width + width && (row + 1) * width
            <= width * height) by (nonlinear_arith)
            requires
                0 <= row < height,
                0 <= width,
        ;
        assert(is_glitched_row(
            row_of(first, width, row),
            row_of(source, width, row),
            row_of(mask, width, row),
            key,
        ));
        assert(is_glitched_row(
            row_of(second, width, row),
            row_of(source, width, row),
            row_of(mask, width, row),
            key,
        ));
        lemma_rows_agree(
            row_of(first, width, row),
            row_of(second, width, row),
            row_of(source, width, row),
            row_of(mask, width, row),
            key,
        );
    }
}

/// The bytes of the rows, one row after the other.
pub open spec fn concat(rows: Seq<Vec<u8>>) -> Seq<u8>
    decreases rows.len(),
{
    if rows.len() == 0 {
        Seq::empty()
    } else {
        concat(rows.drop_last()) + rows.last()@
    }
}

/// The pixels of the rows, one row after the other.
pub open spec fn concat_pixels(rows: Seq<Vec<u8>>, format: PixelFormat) -> Seq<Pixel>
    decreases rows.len(),
{
    if rows.len() == 0 {
        Seq::empty()
    } else {
        concat_pixels(rows.drop_last(), format) + unpack(rows.last()@, format)
    }
}

/// Whether a buffer of `len` bytes holds an RGB image of the given size.
pub fn buffer_matches(len: usize, img_width: usize, img_height: usize) -> (fits: bool)
    ensures
        fits == (len == img_width * img_height * 3),
{
    match img_width.checked_mul(img_height) {
        None => {
            assert(img_width * img_height * 3 > usize::MAX) by (nonlinear_arith)
                requires
                    img_width * img_height > usize::MAX,
            ;
            false
        },
        Some(count) => match count.checked_mul(3) {
            None => false,
            Some(bytes) => bytes == len,
        },
    }
}

/// Puts the rows together in their order.
pub fn concat_rows(rows: &Vec<Vec<u8>>) -> (out: Vec<u8>)
    ensures
        out@ == concat(rows@),
{
    let mut out: Vec<u8> = Vec::new();
    let mut i: usize = 0;
    assert(rows@.take(0) == Seq::<Vec<u8>>::empty());
    while i < rows.len()
        invariant
            i <= rows.len(),
            out@ == concat(rows@.take(i as int)),
        decreases rows.len() - i,
    {
        out.extend_from_slice(rows[i].as_slice());
        proof {
            assert(rows@.take(i + 1).drop_last() == rows@.take(i as int));
        }
        i += 1;
    }
    assert(rows@.take(i as int) == rows@);
    out
}

/// Rows of `width` pixels each, put together, are a frame of those rows:
/// the bytes of the whole are the packed pixels of the rows, and row `r` of
/// the whole is row `r`.
pub proof fn lemma_concat_rows(rows: Seq<Vec<u8>>, width: int, format: PixelFormat)
    requires
        0 <= width,
        forall|r: int|
            0 <= r < rows.len() ==> (#[trigger] rows[r])@ == pack(unpack(rows[r]@, format), format),
        forall|r: int| 0 <= r < rows.len() ==> unpack((#[trigger] rows[r])@, format).len() == width,
    ensures
        concat(rows) == pack(concat_pixels(rows, format), format),
        unpack(concat(rows), format) == concat_pixels(rows, format),
        concat_pixels(rows, format).len() == width * rows.len(),
        forall|r: int|
            0 <= r < rows.len() ==> #[trigger] row_of(concat_pixels(rows, format), width, r) == unpack(
                rows[r]@,
                format,
            ),
    decreases rows.len(),
{
    let all = concat_pixels(rows, format);
    if rows.len() == 0 {
        assert(concat(rows) =~= pack(all, format));
        assert(width * 0 == 0);
    } else {
        let n = rows.len() - 1;
        let before = rows.drop_last();
        let last = unpack(rows.last()@, format);
        let head = concat_pixels(before, format);
        assert forall|r: int| 0 <= r < before.len() implies (#[trigger] before[r])@ == pack(
            unpack(before[r]@, format),
            format,
        ) && unpack(before[r]@, format).len() == width by {
            assert(before[r] == rows[r]);
        }
        lemma_concat_rows(before, width, format);
        lemma_pack_concat(head, last, format);
        assert(width * (n + 1) == width * n + width) by (nonlinear_arith);
        assert forall|r: int| 0 <= r < rows.len() implies #[trigger] row_of(all, width, r) == unpack(
            rows[r]@,
            format,
        ) by {
            assert(0 <= r * width && (r + 1) * width == r * width + width && (r + 1) * width
                <= width * (n + 1)) by (nonlinear_arith)
                requires
                    0 <= r <= n,
                    0 <= width,
            ;
            if r < n {
                assert((r + 1) * width <= width * n) by (nonlinear_arith)
                    requires
                        0 <= r < n,
                        0 <= width,
                ;
                assert(row_of(all, width, r) == row_of(head, width, r));
                assert(before[r] == rows[r]);
            } else {
                assert(r * width == width * n) by (nonlinear_arith)
                    requires
                        r == n,
                ;
                assert(row_of(all, width, r) == last);
            }
        }
    }
    lemma_unpack_pack(all, format);
}

/// Sorts the whole frame: builds the mask from the configured channel and
/// rule, sorts each row on its own, and returns the rows in their order as
/// one buffer in the configured layout. The input is left as it is.
pub fn pixel_sort(img_buf: &[u8], img_width: usize, img_height: usize, config: &SortConfig) -> (out:
    Vec<u8>)
    requires
        img_buf@.len() == img_width * img_height * 3,
    ensures
        out@.len() == img_width * img_height * config.format.spec_stride(),
        out@ == pack(unpack(out@, config.format), config.format),
        is_glitched_frame(
            unpack(out@, config.format),
            pixels_of(img_buf@),
            mask_of(pixels_of(img_buf@), config.mask_channel, config.predicate),
            img_width as int,
            img_height as int,
            config.key,
        ),
        forall|row: int|
            0 <= row < img_height ==> (#[trigger] row_of(
                unpack(out@, config.format),
                img_width as int,
                row,
            )).to_multiset() == row_of(pixels_of(img_buf@), img_width as int, row).to_multiset(),
{
    let ghost source = pixels_of(img_buf@);
    let ghost width = img_width as int;
    let format = config.format;
    let mask = build_mask(img_buf, config.mask_channel, config.predicate);
    let mut rows: Vec<Vec<u8>> = Vec::new();
    let mut row: usize = 0;
    while row < img_height
        invariant
            row <= img_height,
            width == img_width,
            format == config.format,
            img_buf@.len() == img_width * img_height * 3,
            source == pixels_of(img_buf@),
            mask@ == mask_of(source, config.mask_channel, config.predicate),
            mask@.len() == img_buf@.len() / 3,
            rows@.len() == row,
            forall|r: int|
                0 <= r < row ==> {
                    &&& (#[trigger] rows@[r])@ == pack(unpack(rows@[r]@, format), format)
                    &&& is_glitched_row(
                        unpack(rows@[r]@, format),
                        row_of(source, width, r),
                        row_of(mask@, width, r),
                        config.key,
                    )
                    &&& unpack(rows@[r]@, format).to_multiset() == row_of(
                        source,
                        width,
                        r,
                    ).to_multiset()
                },
        decreases img_height - row,
    {
        proof {
            assert((row + 1) * img_width <= img_width * img_height) by (nonlinear_arith)
                requires
                    row < img_height,
            ;
        }
        let sorted = sort_row(img_buf, mask.as_slice(), img_width, row, config.key, format);
        let ghost before = rows@;
        rows.push(sorted);
        proof {
            assert forall|r: int| 0 <= r < row + 1 implies {
                &&& (#[trigger] rows@[r])@ == pack(unpack(rows@[r]@, format), format)
                &&& is_glitched_row(
                    unpack(rows@[r]@, format),
                    row_of(source, width, r),
                    row_of(mask@, width, r),
                    config.key,
                )
                &&& unpack(rows@[r]@, format).to_multiset() == row_of(
                    source,
                    width,
                    r,
                ).to_multiset()
            } by {
                if r < row {
                    assert(rows@[r] == before[r]);
                }
            }
        }
        row += 1;
    }
    let out = concat_rows(&rows);
    proof {
        assert forall|r: int| 0 <= r < rows@.len() implies unpack(
            (#[trigger] rows@[r])@,
            format,
        ).len() == width by {
            assert(0 <= r * width && (r + 1) * width == r * width + width && (r + 1) * width
                <= width * img_height) by (nonlinear_arith)
                requires
                    0 <= r < img_height,
                    0 <= width,
            ;
            assert(row_of(source, width, r).len() == width);
        }
        lemma_concat_rows(rows@, width, format);
        lemma_unpack_pack(concat_pixels(rows@, format), format);
        assert(width * img_height * format.spec_stride() == img_width * img_height
            * config.format.spec_stride()) by (nonlinear_arith)
            requires
                width == img_width,
                format == config.format,
        ;
    }
    out
}

} // verus!
