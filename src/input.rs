//! Input state that outlives single events: the modifier keys held down.

use vstd::prelude::*;

verus! {

/// The keys that matter for modifier tracking; every other key is `Other`.
#[derive(Clone, Copy, Debug, PartialEq, Eq, Structural)]
pub enum Key {
    LeftShift,
    RightShift,
    LeftAlt,
    RightAlt,
    LeftControl,
    RightControl,
    LeftSuper,
    RightSuper,
    Other,
}

/// What happened to a key.
#[derive(Clone, Copy, Debug, PartialEq, Eq, Structural)]
pub enum Action {
    Press,
    Repeat,
    Release,
}

/// Which modifiers are held down.
#[derive(Clone, Copy, Debug, PartialEq, Eq, Structural)]
pub struct Modifiers {
    pub mod_shift: bool,
    pub mod_alt: bool,
    pub mod_control: bool,
    pub mod_super: bool,
}

/// Whether an action leaves the key held down.
pub open spec fn held(action: Action) -> bool {
    action is Press || action is Repeat
}

impl Modifiers {
    /// No modifier held.
    pub fn new() -> (r: Modifiers)
        ensures
            !r.mod_shift && !r.mod_alt && !r.mod_control && !r.mod_super,
    {
        Modifiers { mod_shift: false, mod_alt: false, mod_control: false, mod_super: false }
    }

    /// Whether no modifier is held.
    pub fn is_empty(&self) -> (r: bool)
        ensures
            r == (!self.mod_shift && !self.mod_alt && !self.mod_control && !self.mod_super),
    {
        !self.mod_shift && !self.mod_alt && !self.mod_control && !self.mod_super
    }

    /// Records a key event: a shift, alt, control or super key (left or
    /// right) sets its modifier to whether the key is now held; any other
    /// key changes nothing.
    pub fn update_modifiers(&mut self, key: Key, action: Action)
        ensures
            final(self).mod_shift == if key is LeftShift || key is RightShift {
                held(action)
            } else {
                old(self).mod_shift
            },
            final(self).mod_alt == if key is LeftAlt || key is RightAlt {
                held(action)
            } else {
                old(self).mod_alt
            },
            final(self).mod_control == if key is LeftControl || key is RightControl {
                held(action)
            } else {
                old(self).mod_control
            },
            final(self).mod_super == if key is LeftSuper || key is RightSuper {
                held(action)
            } else {
                old(self).mod_super
            },
    {
        let pressed = match action {
            Action::Press | Action::Repeat => true,
            Action::Release => false,
        };
        match key {
            Key::LeftShift | Key::RightShift => {
                self.mod_shift = pressed;
            },
            Key::LeftAlt | Key::RightAlt => {
                self.mod_alt = pressed;
            },
            Key::LeftControl | Key::RightControl => {
                self.mod_control = pressed;
            },
            Key::LeftSuper | Key::RightSuper => {
                self.mod_super = pressed;
            },
            Key::Other => {},
        }
    }
}

} // verus!
