use vstd::prelude::*;

verus! {

/// A key
#[allow(missing_docs)]
#[derive(Clone, Copy, Debug, PartialEq, Eq, Structural)]
pub enum Key {
    LeftMouseButton,
    MiddleMouseButton,
    RightMouseButton,
    Key1,
    Key2,
    Key3,
    Key4,
    Key5,
    Key6,
    Key7,
    Key8,
    Key9,
    Key0,
    F1,
    F2,
    F3,
    F4,
    F5,
    F6,
    F7,
    F8,
    F9,
    F10,
    F11,
    F12,
    A,
    B,
    C,
    D,
    E,
    F,
    G,
    H,
    I,
    J,
    K,
    L,
    M,
    N,
    O,
    P,
    Q,
    R,
    S,
    T,
    U,
    V,
    W,
    X,
    Y,
    Z,
    Tab,
    Shift,
    Ctrl,
    Alt,
    Space,
    Enter,
    Backspace,
    Escape,
    Home,
    End,
    Minus,
    Plus,
    BracketOpen,
    BracketClose,
    Comma,
    Period,
    Semicolon,
    Quote,
    Tilde,
    Backslash,
    Slash,
    Left,
    Right,
    Up,
    Down,
}

/// A set of modifiers
#[derive(Clone, Copy, Debug, PartialEq, Eq, Structural)]
pub struct Modifiers {
    /// `true` if the control key is pressed, `false` otherwise.
    pub ctrl: bool,
    /// `true` if the alt key is pressed, `false` otherwise.
    pub alt: bool,
    /// `true` if the shift key is pressed, `false` otherwise.
    pub shift: bool,
    /// `true` if the windows/super/command key is pressed, `false` otherwise.
    pub logo: bool,
}

impl Modifiers {
    /// No modifier key is held.
    pub fn none() -> (m: Modifiers)
        ensures
            m.ctrl == false, m.alt == false, m.shift == false, m.logo == false,
    {
        Modifiers { ctrl: false, alt: false, shift: false, logo: false }
    }

    /// Only the ctrl modifier key is held.
    pub fn ctrl() -> (m: Modifiers)
        ensures
            m.ctrl == true, m.alt == false, m.shift == false, m.logo == false,
    {
        Modifiers { ctrl: true, alt: false, shift: false, logo: false }
    }

    /// Only the alt modifier key is held.
    pub fn alt() -> (m: Modifiers)
        ensures
            m.ctrl == false, m.alt == true, m.shift == false, m.logo == false,
    {
        Modifiers { ctrl: false, alt: true, shift: false, logo: false }
    }

    /// Only the shift modifier key is held.
    pub fn shift() -> (m: Modifiers)
        ensures
            m.ctrl == false, m.alt == false, m.shift == true, m.logo == false,
    {
        Modifiers { ctrl: false, alt: false, shift: true, logo: false }
    }

    /// Only the logo modifier key is held.
    pub fn logo() -> (m: Modifiers)
        ensures
            m.ctrl == false, m.alt == false, m.shift == false, m.logo == true,
    {
        Modifiers { ctrl: false, alt: false, shift: false, logo: true }
    }

}

} // verus!
