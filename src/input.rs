//! The input latch: the set of keys held down, which turns raw press and
//! release events into clean down and up transitions.

use vstd::prelude::*;
use std::collections::HashSet;

verus! {

broadcast use vstd::std_specs::hash::group_hash_axioms;

/// A raw event from the window system, keys named by number.
#[derive(Debug, Clone, Copy, PartialEq, Eq, Structural)]
pub enum InputEvent {
    /// A key went down, or repeats while held.
    Press(u32),
    /// A key went up.
    Release(u32),
    /// The window gained (`true`) or lost (`false`) focus.
    Focus(bool),
}

/// What the simulation is told.
#[derive(Debug, Clone, Copy, PartialEq, Eq, Structural)]
pub enum Signal {
    /// The key was not held and now is.
    KeyDown(u32),
    /// The key was held and now is not.
    KeyUp(u32),
    /// Focus was lost: every key counts as up, with no `KeyUp` sent.
    FocusLost,
}

/// The held keys after `ev`, and what the simulation is told of it.
pub open spec fn latch_step(held: Set<u32>, ev: InputEvent) -> (Set<u32>, Option<Signal>) {
    match ev {
        InputEvent::Press(k) => if held.contains(k) {
            (held, None)
        } else {
            (held.insert(k), Some(Signal::KeyDown(k)))
        },
        InputEvent::Release(k) => if held.contains(k) {
            (held.remove(k), Some(Signal::KeyUp(k)))
        } else {
            (held, None)
        },
        InputEvent::Focus(true) => (held, None),
        InputEvent::Focus(false) => (Set::empty(), Some(Signal::FocusLost)),
    }
}

/// The keys currently held down.
pub struct InputLatch {
    held: HashSet<u32>,
}

impl View for InputLatch {
    type V = Set<u32>;

    closed spec fn view(&self) -> Set<u32> {
        self.held@
    }
}

impl InputLatch {
    /// A latch with no key held.
    pub fn new() -> (r: InputLatch)
        ensures
            r@ == Set::<u32>::empty(),
    {
        InputLatch { held: HashSet::new() }
    }

    /// Whether `key` is held.
    pub fn is_held(&self, key: u32) -> (r: bool)
        ensures
            r == self@.contains(key),
    {
        self.held.contains(&key)
    }

    /// Records `ev` and returns the transition to report, if any: one
    /// `KeyDown` per press of a key not held, one `KeyUp` per release of a
    /// held key, and on focus loss every key dropped with no `KeyUp`.
    pub fn apply(&mut self, ev: InputEvent) -> (r: Option<Signal>)
        ensures
            (final(self)@, r) == latch_step(old(self)@, ev),
    {
        match ev {
            InputEvent::Press(k) => {
                if self.held.insert(k) {
                    Some(Signal::KeyDown(k))
                } else {
                    None
                }
            },
            InputEvent::Release(k) => {
                if self.held.remove(&k) {
                    Some(Signal::KeyUp(k))
                } else {
                    None
                }
            },
            InputEvent::Focus(focused) => {
                if focused {
                    None
                } else {
                    self.held.clear();
                    Some(Signal::FocusLost)
                }
            },
        }
    }
}

/// A repeated press of the same key, with no release between, reports
/// one `KeyDown` at most: the first press reports it exactly when the key
/// was not held, and the second reports nothing.
pub proof fn lemma_repeat_press_reports_once(held: Set<u32>, key: u32)
    ensures
        ({
            let (h1, first) = latch_step(held, InputEvent::Press(key));
            let (h2, second) = latch_step(h1, InputEvent::Press(key));
            &&& first == (if held.contains(key) {
                None
            } else {
                Some(Signal::KeyDown(key))
            })
            &&& second is None
            &&& h2 == held.insert(key)
        }),
{
    if held.contains(key) {
        assert(held.insert(key) =~= held);
    }
}

/// Losing focus empties the latch and reports only `FocusLost`, never a
/// `KeyUp`, whatever was held.
pub proof fn lemma_focus_loss_clears_silently(held: Set<u32>)
    ensures
        latch_step(held, InputEvent::Focus(false)) == (Set::<u32>::empty(), Some(Signal::FocusLost)),
        forall|k: u32|
            latch_step(held, InputEvent::Focus(false)).1 != Some(Signal::KeyUp(k)),
{
}

} // verus!
