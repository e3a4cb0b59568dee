//! The mask: one flag for each pixel, set where the pixel is sortable.

use crate::pixel::{pixels_of, Channel, Pixel};
use crate::threshold::Predicate;
use vstd::prelude::*;

verus! {

/// The mask of a sequence of pixels: flag `i` says whether `predicate` admits
/// the value that pixel `i` has in `channel`.
pub open spec fn mask_of(pixels: Seq<Pixel>, channel: Channel, predicate: Predicate) -> Seq<
    bool,
> {
    Seq::new(pixels.len(), |i: int| predicate.spec_admits(pixels[i].spec_channel(channel)))
}

/// Builds the mask of an RGB byte buffer. Each flag depends on its own pixel
/// only.
pub fn build_mask(img_buf: &[u8], channel: Channel, predicate: Predicate) -> (mask: Vec<bool>)
    ensures
        mask@ == mask_of(pixels_of(img_buf@), channel, predicate),
        mask@.len() == img_buf@.len() / 3,
        forall|i: int|
            0 <= i < mask@.len() ==> #[trigger] mask@[i] == predicate.spec_admits(
                img_buf@[3 * i + channel.spec_index()],
            ),
{
    let len: usize = img_buf.len();
    let count: usize = len / 3;
    let mut mask: Vec<bool> = Vec::with_capacity(count);
    let mut i: usize = 0;
    while i < count
        invariant
            i <= count,
            len == img_buf@.len(),
            count == len / 3,
            mask@.len() == i,
            forall|k: int|
                0 <= k < i ==> #[trigger] mask@[k] == predicate.spec_admits(
                    img_buf@[3 * k + channel.spec_index()],
                ),
        decreases count - i,
    {
        assert(3 * i + 2 < len);
        let value = img_buf[3 * i + channel.index()];
        mask.push(predicate.admits(value));
        i += 1;
    }
    assert(mask@ =~= mask_of(pixels_of(img_buf@), channel, predicate));
    mask
}

} // verus!
