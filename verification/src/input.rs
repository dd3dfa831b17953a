use vstd::prelude::*;

verus! {

/// The keyboard keys the engine tracks.
#[derive(Debug, Clone, Copy, PartialEq, Eq, Structural, Hash)]
pub enum Key {
    // Letters
    A,
    B,
    C,
    D,
    E,
    F,
    G,
    H,
    I,
    J,
    K,
    L,
    M,
    N,
    O,
    P,
    Q,
    R,
    S,
    T,
    U,
    V,
    W,
    X,
    Y,
    Z,
    // Numbers (row, not numpad)
    N0,
    N1,
    N2,
    N3,
    N4,
    N5,
    N6,
    N7,
    N8,
    N9,
    // Arrows
    ArrowUp,
    ArrowDown,
    ArrowLeft,
    ArrowRight,
    // Modifiers
    ShiftLeft,
    ShiftRight,
    ControlLeft,
    ControlRight,
    AltLeft,
    AltRight,
    // Common
    Space,
    Enter,
    Escape,
    Backspace,
    Tab,
    CapsLock,
    // Function keys
    F1,
    F2,
    F3,
    F4,
    F5,
    F6,
    F7,
    F8,
    F9,
    F10,
    F11,
    F12,
    // Numpad
    Numpad0,
    Numpad1,
    Numpad2,
    Numpad3,
    Numpad4,
    Numpad5,
    Numpad6,
    Numpad7,
    Numpad8,
    Numpad9,
    NumpadEnter,
    NumpadAdd,
    NumpadSubtract,
    NumpadMultiply,
    NumpadDivide,
}

impl Key {
    /// The number of keys.
    pub const COUNT: usize = 79;

    /// The key's slot in the key tables.
    pub open spec fn spec_index(&self) -> int {
        match *self {
            Key::A => 0,
            Key::B => 1,
            Key::C => 2,
            Key::D => 3,
            Key::E => 4,
            Key::F => 5,
            Key::G => 6,
            Key::H => 7,
            Key::I => 8,
            Key::J => 9,
            Key::K => 10,
            Key::L => 11,
            Key::M => 12,
            Key::N => 13,
            Key::O => 14,
            Key::P => 15,
            Key::Q => 16,
            Key::R => 17,
            Key::S => 18,
            Key::T => 19,
            Key::U => 20,
            Key::V => 21,
            Key::W => 22,
            Key::X => 23,
            Key::Y => 24,
            Key::Z => 25,
            Key::N0 => 26,
            Key::N1 => 27,
            Key::N2 => 28,
            Key::N3 => 29,
            Key::N4 => 30,
            Key::N5 => 31,
            Key::N6 => 32,
            Key::N7 => 33,
            Key::N8 => 34,
            Key::N9 => 35,
            Key::ArrowUp => 36,
            Key::ArrowDown => 37,
            Key::ArrowLeft => 38,
            Key::ArrowRight => 39,
            Key::ShiftLeft => 40,
            Key::ShiftRight => 41,
            Key::ControlLeft => 42,
            Key::ControlRight => 43,
            Key::AltLeft => 44,
            Key::AltRight => 45,
            Key::Space => 46,
            Key::Enter => 47,
            Key::Escape => 48,
            Key::Backspace => 49,
            Key::Tab => 50,
            Key::CapsLock => 51,
            Key::F1 => 52,
            Key::F2 => 53,
            Key::F3 => 54,
            Key::F4 => 55,
            Key::F5 => 56,
            Key::F6 => 57,
            Key::F7 => 58,
            Key::F8 => 59,
            Key::F9 => 60,
            Key::F10 => 61,
            Key::F11 => 62,
            Key::F12 => 63,
            Key::Numpad0 => 64,
            Key::Numpad1 => 65,
            Key::Numpad2 => 66,
            Key::Numpad3 => 67,
            Key::Numpad4 => 68,
            Key::Numpad5 => 69,
            Key::Numpad6 => 70,
            Key::Numpad7 => 71,
            Key::Numpad8 => 72,
            Key::Numpad9 => 73,
            Key::NumpadEnter => 74,
            Key::NumpadAdd => 75,
            Key::NumpadSubtract => 76,
            Key::NumpadMultiply => 77,
            Key::NumpadDivide => 78,
        }
    }

    /// The key's slot in the key tables.
    pub fn index(&self) -> (i: usize)
        ensures
            i == self.spec_index(),
    {
        match *self {
            Key::A => 0,
            Key::B => 1,
            Key::C => 2,
            Key::D => 3,
            Key::E => 4,
            Key::F => 5,
            Key::G => 6,
            Key::H => 7,
            Key::I => 8,
            Key::J => 9,
            Key::K => 10,
            Key::L => 11,
            Key::M => 12,
            Key::N => 13,
            Key::O => 14,
            Key::P => 15,
            Key::Q => 16,
            Key::R => 17,
            Key::S => 18,
            Key::T => 19,
            Key::U => 20,
            Key::V => 21,
            Key::W => 22,
            Key::X => 23,
            Key::Y => 24,
            Key::Z => 25,
            Key::N0 => 26,
            Key::N1 => 27,
            Key::N2 => 28,
            Key::N3 => 29,
            Key::N4 => 30,
            Key::N5 => 31,
            Key::N6 => 32,
            Key::N7 => 33,
            Key::N8 => 34,
            Key::N9 => 35,
            Key::ArrowUp => 36,
            Key::ArrowDown => 37,
            Key::ArrowLeft => 38,
            Key::ArrowRight => 39,
            Key::ShiftLeft => 40,
            Key::ShiftRight => 41,
            Key::ControlLeft => 42,
            Key::ControlRight => 43,
            Key::AltLeft => 44,
            Key::AltRight => 45,
            Key::Space => 46,
            Key::Enter => 47,
            Key::Escape => 48,
            Key::Backspace => 49,
            Key::Tab => 50,
            Key::CapsLock => 51,
            Key::F1 => 52,
            Key::F2 => 53,
            Key::F3 => 54,
            Key::F4 => 55,
            Key::F5 => 56,
            Key::F6 => 57,
            Key::F7 => 58,
            Key::F8 => 59,
            Key::F9 => 60,
            Key::F10 => 61,
            Key::F11 => 62,
            Key::F12 => 63,
            Key::Numpad0 => 64,
            Key::Numpad1 => 65,
            Key::Numpad2 => 66,
            Key::Numpad3 => 67,
            Key::Numpad4 => 68,
            Key::Numpad5 => 69,
            Key::Numpad6 => 70,
            Key::Numpad7 => 71,
            Key::Numpad8 => 72,
            Key::Numpad9 => 73,
            Key::NumpadEnter => 74,
            Key::NumpadAdd => 75,
            Key::NumpadSubtract => 76,
            Key::NumpadMultiply => 77,
            Key::NumpadDivide => 78,
        }
    }

    /// The key in slot `i`.
    pub open spec fn from_index(i: int) -> Key {
        if i == 0 {
            Key::A
        } else if i == 1 {
            Key::B
        } else if i == 2 {
            Key::C
        } else if i == 3 {
            Key::D
        } else if i == 4 {
            Key::E
        } else if i == 5 {
            Key::F
        } else if i == 6 {
            Key::G
        } else if i == 7 {
            Key::H
        } else if i == 8 {
            Key::I
        } else if i == 9 {
            Key::J
        } else if i == 10 {
            Key::K
        } else if i == 11 {
            Key::L
        } else if i == 12 {
            Key::M
        } else if i == 13 {
            Key::N
        } else if i == 14 {
            Key::O
        } else if i == 15 {
            Key::P
        } else if i == 16 {
            Key::Q
        } else if i == 17 {
            Key::R
        } else if i == 18 {
            Key::S
        } else if i == 19 {
            Key::T
        } else if i == 20 {
            Key::U
        } else if i == 21 {
            Key::V
        } else if i == 22 {
            Key::W
        } else if i == 23 {
            Key::X
        } else if i == 24 {
            Key::Y
        } else if i == 25 {
            Key::Z
        } else if i == 26 {
            Key::N0
        } else if i == 27 {
            Key::N1
        } else if i == 28 {
            Key::N2
        } else if i == 29 {
            Key::N3
        } else if i == 30 {
            Key::N4
        } else if i == 31 {
            Key::N5
        } else if i == 32 {
            Key::N6
        } else if i == 33 {
            Key::N7
        } else if i == 34 {
            Key::N8
        } else if i == 35 {
            Key::N9
        } else if i == 36 {
            Key::ArrowUp
        } else if i == 37 {
            Key::ArrowDown
        } else if i == 38 {
            Key::ArrowLeft
        } else if i == 39 {
            Key::ArrowRight
        } else if i == 40 {
            Key::ShiftLeft
        } else if i == 41 {
            Key::ShiftRight
        } else if i == 42 {
            Key::ControlLeft
        } else if i == 43 {
            Key::ControlRight
        } else if i == 44 {
            Key::AltLeft
        } else if i == 45 {
            Key::AltRight
        } else if i == 46 {
            Key::Space
        } else if i == 47 {
            Key::Enter
        } else if i == 48 {
            Key::Escape
        } else if i == 49 {
            Key::Backspace
        } else if i == 50 {
            Key::Tab
        } else if i == 51 {
            Key::CapsLock
        } else if i == 52 {
            Key::F1
        } else if i == 53 {
            Key::F2
        } else if i == 54 {
            Key::F3
        } else if i == 55 {
            Key::F4
        } else if i == 56 {
            Key::F5
        } else if i == 57 {
            Key::F6
        } else if i == 58 {
            Key::F7
        } else if i == 59 {
            Key::F8
        } else if i == 60 {
            Key::F9
        } else if i == 61 {
            Key::F10
        } else if i == 62 {
            Key::F11
        } else if i == 63 {
            Key::F12
        } else if i == 64 {
            Key::Numpad0
        } else if i == 65 {
            Key::Numpad1
        } else if i == 66 {
            Key::Numpad2
        } else if i == 67 {
            Key::Numpad3
        } else if i == 68 {
            Key::Numpad4
        } else if i == 69 {
            Key::Numpad5
        } else if i == 70 {
            Key::Numpad6
        } else if i == 71 {
            Key::Numpad7
        } else if i == 72 {
            Key::Numpad8
        } else if i == 73 {
            Key::Numpad9
        } else if i == 74 {
            Key::NumpadEnter
        } else if i == 75 {
            Key::NumpadAdd
        } else if i == 76 {
            Key::NumpadSubtract
        } else if i == 77 {
            Key::NumpadMultiply
        } else {
            Key::NumpadDivide
        }
    }

    /// Slots are in range and name their key back.
    pub proof fn lemma_index(k: Key)
        ensures
            0 <= k.spec_index() < 79,
            Key::from_index(k.spec_index()) == k,
    {
    }
}

/// The mouse buttons the engine tracks.
#[derive(Debug, Clone, Copy, PartialEq, Eq, Structural)]
pub enum MouseButton {
    Left,
    Middle,
    Right,
}

impl MouseButton {
    /// The number of mouse buttons.
    pub const COUNT: usize = 3;

    pub open spec fn spec_index(&self) -> int {
        match *self {
            MouseButton::Left => 0,
            MouseButton::Middle => 1,
            MouseButton::Right => 2,
        }
    }

    /// The button's slot in the button tables.
    pub fn index(&self) -> (i: usize)
        ensures
            i == self.spec_index(),
    {
        match *self {
            MouseButton::Left => 0,
            MouseButton::Middle => 1,
            MouseButton::Right => 2,
        }
    }
}

/// Which keys and mouse buttons are held, and which went down or up since
/// the last flush (the end of the previous frame).
pub struct InputState {
    keys_held: Vec<bool>,
    keys_down: Vec<bool>,
    keys_up: Vec<bool>,
    mouse_buttons: Vec<bool>,
    mouse_down: Vec<bool>,
    mouse_up: Vec<bool>,
}

impl InputState {
    pub closed spec fn key_held(&self, k: Key) -> bool {
        self.keys_held@[k.spec_index()]
    }

    pub closed spec fn key_down(&self, k: Key) -> bool {
        self.keys_down@[k.spec_index()]
    }

    pub closed spec fn key_up(&self, k: Key) -> bool {
        self.keys_up@[k.spec_index()]
    }

    pub closed spec fn button_held(&self, b: MouseButton) -> bool {
        self.mouse_buttons@[b.spec_index()]
    }

    pub closed spec fn button_down(&self, b: MouseButton) -> bool {
        self.mouse_down@[b.spec_index()]
    }

    pub closed spec fn button_up(&self, b: MouseButton) -> bool {
        self.mouse_up@[b.spec_index()]
    }

    /// One entry per key and per button.
    pub closed spec fn wf(&self) -> bool {
        &&& self.keys_held@.len() == 79
        &&& self.keys_down@.len() == 79
        &&& self.keys_up@.len() == 79
        &&& self.mouse_buttons@.len() == 3
        &&& self.mouse_down@.len() == 3
        &&& self.mouse_up@.len() == 3
    }

    /// The mouse-button state is the same in both.
    pub open spec fn same_buttons(a: Self, b: Self) -> bool {
        forall|m: MouseButton|
            #![trigger b.button_held(m)]
            #![trigger b.button_down(m)]
            #![trigger b.button_up(m)]
            b.button_held(m) == a.button_held(m) && b.button_down(m) == a.button_down(m)
                && b.button_up(m) == a.button_up(m)
    }

    /// The key state is the same in both.
    pub open spec fn same_keys(a: Self, b: Self) -> bool {
        forall|k: Key|
            #![trigger b.key_held(k)]
            #![trigger b.key_down(k)]
            #![trigger b.key_up(k)]
            b.key_held(k) == a.key_held(k) && b.key_down(k) == a.key_down(k) && b.key_up(k) == a.key_up(k)
    }

    /// Nothing held, nothing pressed or released.
    pub fn new() -> (s: Self)
        ensures
            s.wf(),
            forall|k: Key| !#[trigger] s.key_held(k) && !s.key_down(k) && !s.key_up(k),
            forall|m: MouseButton| !#[trigger] s.button_held(m) && !s.button_down(m) && !s.button_up(m),
    {
        let s = InputState {
            keys_held: vec![false; 79],
            keys_down: vec![false; 79],
            keys_up: vec![false; 79],
            mouse_buttons: vec![false; 3],
            mouse_down: vec![false; 3],
            mouse_up: vec![false; 3],
        };
        proof {
            assert forall|k: Key| !#[trigger] s.key_held(k) && !s.key_down(k) && !s.key_up(k) by {
                Key::lemma_index(k);
            }
        }
        s
    }

    /// Ends a frame: forgets which keys and buttons went down or up; what is
    /// held stays held.
    pub fn flush(&mut self)
        requires
            old(self).wf(),
        ensures
            final(self).wf(),
            forall|k: Key|
                #![trigger final(self).key_held(k)]
                final(self).key_held(k) == old(self).key_held(k) && !final(self).key_down(k)
                    && !final(self).key_up(k),
            forall|m: MouseButton|
                #![trigger final(self).button_held(m)]
                final(self).button_held(m) == old(self).button_held(m) && !final(self).button_down(m)
                    && !final(self).button_up(m),
    {
        self.keys_up = vec![false; 79];
        self.keys_down = vec![false; 79];
        self.mouse_down = vec![false; 3];
        self.mouse_up = vec![false; 3];
        proof {
            assert forall|k: Key| #![trigger self.key_held(k)]
                self.key_held(k) == old(self).key_held(k) && !self.key_down(k) && !self.key_up(k) by {
                Key::lemma_index(k);
            }
        }
    }

    /// A key was pressed (it goes down and is held) or released (it goes up
    /// and is no longer held). Other keys and the buttons do not change.
    pub fn handle_key_event(&mut self, key: Key, pressed: bool)
        requires
            old(self).wf(),
        ensures
            final(self).wf(),
            pressed ==> final(self).key_down(key) && final(self).key_held(key)
                && final(self).key_up(key) == old(self).key_up(key),
            !pressed ==> final(self).key_up(key) && !final(self).key_held(key)
                && final(self).key_down(key) == old(self).key_down(key),
            forall|k: Key|
                #![trigger final(self).key_held(k)]
                #![trigger final(self).key_down(k)]
                #![trigger final(self).key_up(k)]
                k != key ==> final(self).key_held(k) == old(self).key_held(k) && final(self).key_down(k)
                    == old(self).key_down(k) && final(self).key_up(k) == old(self).key_up(k),
            Self::same_buttons(*old(self), *final(self)),
    {
        let i = key.index();
        proof {
            Key::lemma_index(key);
        }
        if pressed {
            self.keys_down.set(i, true);
            self.keys_held.set(i, true);
        } else {
            self.keys_up.set(i, true);
            self.keys_held.set(i, false);
        }
        proof {
            assert forall|k: Key| k != key implies self.key_held(k) == old(self).key_held(k) && self.key_down(k)
                == old(self).key_down(k) && self.key_up(k) == old(self).key_up(k) by {
                Key::lemma_index(k);
            }
        }
    }

    /// A mouse button was pressed (now held) or released (no longer held).
    /// Nothing else changes; in particular no button is marked as having
    /// gone down or up.
    pub fn handle_mouse_event(&mut self, button: MouseButton, pressed: bool)
        requires
            old(self).wf(),
        ensures
            final(self).wf(),
            final(self).button_held(button) == pressed,
            forall|m: MouseButton| #![trigger final(self).button_held(m)] m != button ==> final(self).button_held(m) == old(self).button_held(m),
            forall|m: MouseButton|
                #![trigger final(self).button_down(m)]
                final(self).button_down(m) == old(self).button_down(m) && final(self).button_up(m)
                    == old(self).button_up(m),
            Self::same_keys(*old(self), *final(self)),
    {
        let i = button.index();
        self.mouse_buttons.set(i, pressed);
    }

    pub fn is_key_down(&self, key: Key) -> (r: bool)
        requires
            self.wf(),
        ensures
            r == self.key_down(key),
    {
        proof {
            Key::lemma_index(key);
        }
        self.keys_down[key.index()]
    }

    pub fn is_key_up(&self, key: Key) -> (r: bool)
        requires
            self.wf(),
        ensures
            r == self.key_up(key),
    {
        proof {
            Key::lemma_index(key);
        }
        self.keys_up[key.index()]
    }

    pub fn is_key_held(&self, key: Key) -> (r: bool)
        requires
            self.wf(),
        ensures
            r == self.key_held(key),
    {
        proof {
            Key::lemma_index(key);
        }
        self.keys_held[key.index()]
    }

    pub fn is_mouse_button_down(&self, button: MouseButton) -> (r: bool)
        requires
            self.wf(),
        ensures
            r == self.button_down(button),
    {
        self.mouse_down[button.index()]
    }

    pub fn is_mouse_button_up(&self, button: MouseButton) -> (r: bool)
        requires
            self.wf(),
        ensures
            r == self.button_up(button),
    {
        self.mouse_up[button.index()]
    }
}

} // verus!
