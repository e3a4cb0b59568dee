//! A pixel-sort glitch engine.
//!
//! Every row of an RGB image is cut into runs of sortable pixels, as chosen
//! by a threshold on one channel. Each run is sorted by a channel, the middle
//! of the sorted run is shuffled, and the row is put back together around the
//! pixels that were not sortable.

pub mod control;
pub mod frame;
pub mod mask;
pub mod pixel;
pub mod row;
pub mod segment;
pub mod sort;
pub mod threshold;

pub use control::{Action, Session, Signal, DEBOUNCE_NANOS};
pub use frame::{buffer_matches, concat_rows, pixel_sort, SortConfig};
pub use mask::build_mask;
pub use pixel::{Channel, ConfigError, Pixel, PixelFormat};
pub use row::sort_row;
pub use segment::{shuffle_bounds, sort_segment};
pub use sort::{stable_sort, Direction, SortKey};
pub use threshold::{Predicate, Threshold};
