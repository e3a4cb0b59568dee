//! Thresholds: which channel values make a pixel sortable.

use vstd::prelude::*;

verus! {

/// A window `[low, high]` of channel values. Values outside the window are
/// sortable. The two bounds move independently, so `low` may come to lie
/// above `high`; then every value is outside the window.
#[derive(Clone, Copy, Debug, PartialEq, Eq, Structural)]
pub struct Threshold {
    pub high: u8,
    pub low: u8,
}

/// `value` moved up by one, stopping at 255.
pub open spec fn raised(value: u8) -> u8 {
    if value == 255 {
        255u8
    } else {
        (value + 1) as u8
    }
}

/// `value` moved down by one, stopping at 0.
pub open spec fn lowered(value: u8) -> u8 {
    if value == 0 {
        0u8
    } else {
        (value - 1) as u8
    }
}

/// `value` moved up by one, `steps` times over.
pub open spec fn raised_by(value: u8, steps: nat) -> u8
    decreases steps,
{
    if steps == 0 {
        value
    } else {
        raised(raised_by(value, (steps - 1) as nat))
    }
}

/// `value` moved down by one, `steps` times over.
pub open spec fn lowered_by(value: u8, steps: nat) -> u8
    decreases steps,
{
    if steps == 0 {
        value
    } else {
        lowered(lowered_by(value, (steps - 1) as nat))
    }
}

/// Moving a bound up again and again takes it to 255 and leaves it there: it
/// never wraps round. After `steps` moves the bound is `value + steps`, or
/// 255 if that is more.
pub proof fn lemma_raising_saturates(value: u8, steps: nat)
    ensures
        raised_by(value, steps) == if value + steps >= 255 {
            255
        } else {
            value + steps
        },
        value + steps >= 255 ==> raised_by(value, steps) == 255,
        raised_by(value, steps) >= value,
    decreases steps,
{
    if steps > 0 {
        lemma_raising_saturates(value, (steps - 1) as nat);
    }
}

/// Moving a bound down again and again takes it to 0 and leaves it there: it
/// never wraps round. After `steps` moves the bound is `value - steps`, or 0
/// if that is less.
pub proof fn lemma_lowering_saturates(value: u8, steps: nat)
    ensures
        lowered_by(value, steps) == if value - steps <= 0 {
            0
        } else {
            value - steps
        },
        steps >= value ==> lowered_by(value, steps) == 0,
        lowered_by(value, steps) <= value,
    decreases steps,
{
    if steps > 0 {
        lemma_lowering_saturates(value, (steps - 1) as nat);
    }
}

impl Threshold {
    /// Whether `value` lies outside the window.
    pub open spec fn spec_admits(&self, value: u8) -> bool {
        value < self.low || value > self.high
    }

    /// Whether `value` lies outside the window.
    #[verifier::when_used_as_spec(spec_admits)]
    pub fn admits(&self, value: u8) -> (sortable: bool)
        ensures
            sortable == self.spec_admits(value),
    {
        value < self.low || value > self.high
    }

    /// Moves the upper bound up by one, stopping at 255.
    pub fn increase_high(&mut self)
        ensures
            final(self).high == raised(old(self).high),
            final(self).low == old(self).low,
    {
        self.high = self.high.saturating_add(1);
    }

    /// Moves the upper bound down by one, stopping at 0.
    pub fn decrease_high(&mut self)
        ensures
            final(self).high == lowered(old(self).high),
            final(self).low == old(self).low,
    {
        self.high = self.high.saturating_sub(1);
    }

    /// Moves the lower bound up by one, stopping at 255.
    pub fn increase_low(&mut self)
        ensures
            final(self).low == raised(old(self).low),
            final(self).high == old(self).high,
    {
        self.low = self.low.saturating_add(1);
    }

    /// Moves the lower bound down by one, stopping at 0.
    pub fn decrease_low(&mut self)
        ensures
            final(self).low == lowered(old(self).low),
            final(self).high == old(self).high,
    {
        self.low = self.low.saturating_sub(1);
    }
}

/// The rule that decides from one channel value whether a pixel is sortable.
#[derive(Clone, Copy, Debug, PartialEq, Eq, Structural)]
pub enum Predicate {
    /// Sortable when the value is strictly greater than the cutoff.
    Single(u8),
    /// Sortable when the value is strictly outside the window.
    Dual(Threshold),
}

impl Predicate {
    /// Whether a pixel with this channel value is sortable.
    pub open spec fn spec_admits(&self, value: u8) -> bool {
        match *self {
            Predicate::Single(cutoff) => value > cutoff,
            Predicate::Dual(window) => window.spec_admits(value),
        }
    }

    /// Whether a pixel with this channel value is sortable.
    #[verifier::when_used_as_spec(spec_admits)]
    pub fn admits(&self, value: u8) -> (sortable: bool)
        ensures
            sortable == self.spec_admits(value),
    {
        match *self {
            Predicate::Single(cutoff) => value > cutoff,
            Predicate::Dual(window) => window.admits(value),
        }
    }
}

/// With the lower bound above the upper bound the window is empty, and every
/// value is sortable.
pub proof fn lemma_crossed_window_admits_all(window: Threshold, value: u8)
    requires
        window.low > window.high,
    ensures
        window.spec_admits(value),
{
}

} // verus!
