//! The interactive session: which control inputs are taken, what they do to
//! the threshold, and when the frame is to be computed again.
//!
//! The session decides; its caller reads the clock, performs the action and
//! calls back when it is done.

use crate::frame::SortConfig;
use crate::threshold::{lowered, raised, Predicate, Threshold};
use vstd::prelude::*;

verus! {

/// A control input, already decoded from whatever device it came from.
#[derive(Clone, Copy, Debug, PartialEq, Eq, Structural)]
pub enum Signal {
    /// Move the cutoff of a single threshold up.
    IncreaseThreshold,
    /// Move the cutoff of a single threshold down.
    DecreaseThreshold,
    /// Move the lower bound of a window up.
    IncreaseLow,
    /// Move the lower bound of a window down.
    DecreaseLow,
    /// Move the upper bound of a window up.
    IncreaseHigh,
    /// Move the upper bound of a window down.
    DecreaseHigh,
    /// Leave the session.
    Exit,
    /// Any other input.
    Other,
}

/// What the caller is to do after an input.
#[derive(Clone, Copy, Debug, PartialEq, Eq, Structural)]
pub enum Action {
    /// The input was not taken: it was no press, or it came too soon after
    /// the last one. Nothing is to be done.
    Dropped,
    /// The input was taken and changed nothing. The caller marks the time.
    Noted,
    /// The input was taken and the threshold was adjusted. The caller
    /// computes the frame again and then marks the time.
    Recompute,
    /// The session ends.
    Exit,
}

/// Inputs that follow the last one that was taken by no more than this many
/// nanoseconds are dropped.
pub const DEBOUNCE_NANOS: u64 = 25_000_000;

impl Predicate {
    /// The rule after a control input, or `None` where the input does not
    /// speak of this kind of rule. A bound that is asked to move stops at 0
    /// and at 255.
    pub open spec fn spec_adjusted(&self, signal: Signal) -> Option<Predicate> {
        match (*self, signal) {
            (Predicate::Single(cutoff), Signal::IncreaseThreshold) => Some(
                Predicate::Single(raised(cutoff)),
            ),
            (Predicate::Single(cutoff), Signal::DecreaseThreshold) => Some(
                Predicate::Single(lowered(cutoff)),
            ),
            (Predicate::Dual(window), Signal::IncreaseLow) => Some(
                Predicate::Dual(Threshold { low: raised(window.low), high: window.high }),
            ),
            (Predicate::Dual(window), Signal::DecreaseLow) => Some(
                Predicate::Dual(Threshold { low: lowered(window.low), high: window.high }),
            ),
            (Predicate::Dual(window), Signal::IncreaseHigh) => Some(
                Predicate::Dual(Threshold { low: window.low, high: raised(window.high) }),
            ),
            (Predicate::Dual(window), Signal::DecreaseHigh) => Some(
                Predicate::Dual(Threshold { low: window.low, high: lowered(window.high) }),
            ),
            _ => None,
        }
    }

    /// The rule after a control input, or `None` where the input does not
    /// speak of this kind of rule.
    #[verifier::when_used_as_spec(spec_adjusted)]
    pub fn adjusted(&self, signal: Signal) -> (next: Option<Predicate>)
        ensures
            next == self.spec_adjusted(signal),
    {
        match *self {
            Predicate::Single(cutoff) => match signal {
                Signal::IncreaseThreshold => Some(Predicate::Single(cutoff.saturating_add(1))),
                Signal::DecreaseThreshold => Some(Predicate::Single(cutoff.saturating_sub(1))),
                _ => None,
            },
            Predicate::Dual(window) => {
                let mut next = window;
                match signal {
                    Signal::IncreaseLow => {
                        next.increase_low();
                        Some(Predicate::Dual(next))
                    },
                    Signal::DecreaseLow => {
                        next.decrease_low();
                        Some(Predicate::Dual(next))
                    },
                    Signal::IncreaseHigh => {
                        next.increase_high();
                        Some(Predicate::Dual(next))
                    },
                    Signal::DecreaseHigh => {
                        next.decrease_high();
                        Some(Predicate::Dual(next))
                    },
                    _ => None,
                }
            },
        }
    }
}

/// The state of an interactive session: the configuration that the next
/// recompute will use, and the time, in nanoseconds on the caller's clock, at
/// which the last input that was taken had been dealt with.
#[derive(Clone, Copy, Debug, PartialEq, Eq, Structural)]
pub struct Session {
    pub config: SortConfig,
    pub last_handled: u64,
}

impl Session {
    /// Whether an input at time `now` is taken: it is a press, and more than
    /// the debounce time has passed since the last input was dealt with. A
    /// clock that reads earlier than before counts as no time passed.
    pub open spec fn spec_accepts(&self, pressed: bool, now: u64) -> bool {
        pressed && now - self.last_handled > DEBOUNCE_NANOS
    }

    /// The action that an input calls for and the session after it.
    pub open spec fn spec_step(&self, signal: Signal, pressed: bool, now: u64) -> (Action, Session) {
        if !self.spec_accepts(pressed, now) {
            (Action::Dropped, *self)
        } else if signal == Signal::Exit {
            (Action::Exit, *self)
        } else {
            match self.config.predicate.spec_adjusted(signal) {
                Some(predicate) => (
                    Action::Recompute,
                    Session {
                        config: SortConfig {
                            mask_channel: self.config.mask_channel,
                            predicate,
                            key: self.config.key,
                            format: self.config.format,
                        },
                        last_handled: self.last_handled,
                    },
                ),
                None => (Action::Noted, *self),
            }
        }
    }

    /// A session that starts at time `now` with the given configuration.
    pub fn new(config: SortConfig, now: u64) -> (session: Session)
        ensures
            session == (Session { config, last_handled: now }),
    {
        Session { config, last_handled: now }
    }

    /// Whether an input at time `now` is taken.
    #[verifier::when_used_as_spec(spec_accepts)]
    pub fn accepts(&self, pressed: bool, now: u64) -> (taken: bool)
        ensures
            taken == self.spec_accepts(pressed, now),
    {
        pressed && now.saturating_sub(self.last_handled) > DEBOUNCE_NANOS
    }

    /// Deals with one input at time `now`: drops it, or adjusts the threshold
    /// and says what the caller is to do.
    pub fn handle(&mut self, signal: Signal, pressed: bool, now: u64) -> (action: Action)
        ensures
            (action, *final(self)) == old(self).spec_step(signal, pressed, now),
    {
        if !self.accepts(pressed, now) {
            return Action::Dropped;
        }
        match signal {
            Signal::Exit => Action::Exit,
            _ => match self.config.predicate.adjusted(signal) {
                Some(predicate) => {
                    self.config.predicate = predicate;
                    Action::Recompute
                },
                None => Action::Noted,
            },
        }
    }

    /// Marks `now` as the time at which the last input was dealt with. The
    /// debounce time runs from here.
    pub fn mark_handled(&mut self, now: u64)
        ensures
            final(self).last_handled == now,
            final(self).config == old(self).config,
    {
        self.last_handled = now;
    }
}

/// An input that follows the last one within the debounce time is dropped
/// and changes nothing, whatever it asks for.
pub proof fn lemma_rapid_input_dropped(session: Session, signal: Signal, pressed: bool, now: u64)
    requires
        now <= session.last_handled + DEBOUNCE_NANOS,
    ensures
        session.spec_step(signal, pressed, now) == (Action::Dropped, session),
{
}

} // verus!
