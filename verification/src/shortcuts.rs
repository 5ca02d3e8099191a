//! The modifier keys of a global shortcut, and the check of the keys held down against them.

use vstd::prelude::*;

verus! {

/// Which modifier keys a shortcut asks for.
#[derive(Debug, Copy, Clone, PartialEq, Eq, Hash, Structural)]
pub struct Modifiers {
    pub alt: bool,
    pub shift: bool,
    pub ctrl: bool,
}

impl Modifiers {
    pub fn new(alt: bool, shift: bool, ctrl: bool) -> (m: Self)
        ensures
            m == (Modifiers { alt, shift, ctrl }),
    {
        Modifiers { alt, shift, ctrl }
    }
}

/// Which modifier keys are held down; shift and control are tracked for each side.
#[derive(Debug, Copy, Clone)]
pub struct ModifierState {
    pub alt: bool,
    pub shift_l: bool,
    pub shift_r: bool,
    pub ctrl_l: bool,
    pub ctrl_r: bool,
}

impl ModifierState {
    /// No key held down.
    pub fn new() -> (s: Self)
        ensures
            !s.alt && !s.shift_l && !s.shift_r && !s.ctrl_l && !s.ctrl_r,
    {
        ModifierState { alt: false, shift_l: false, shift_r: false, ctrl_l: false, ctrl_r: false }
    }

    /// Whether the keys held down match the wanted modifiers: alt exactly, and shift and
    /// control each on at least one side.
    pub fn modifier_match(&self, modifiers: Modifiers) -> (b: bool)
        ensures
            b == ((modifiers.alt == self.alt)
                && (modifiers.shift == self.shift_l || modifiers.shift == self.shift_r)
                && (modifiers.ctrl == self.ctrl_l || modifiers.ctrl == self.ctrl_r)),
    {
        (modifiers.alt == self.alt)
            && (modifiers.shift == self.shift_l || modifiers.shift == self.shift_r)
            && (modifiers.ctrl == self.ctrl_l || modifiers.ctrl == self.ctrl_r)
    }
}

} // verus!
