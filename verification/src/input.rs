//! Input: keyboard, mouse and gamepad button state with per-frame edge
//! tracking, and string-named action bindings (defined in `project.ron`).
//!
//! Keys and mouse buttons are the library's own names for the physical
//! inputs; the window front end translates its events into them. Analog
//! values (pointer position, wheel, stick axes) stay with the front end,
//! which reports each stick as the directions it is pushed past the `0.5`
//! threshold.
use vstd::prelude::*;
use vstd::string::*;
use crate::assets::texts;
use crate::text::str_eq;

verus! {

/// Named keys (other than letters, digits and function keys).
#[derive(Clone, Copy, Debug, PartialEq, Eq, Structural)]
pub enum NamedKey {
    Space,
    Escape,
    Enter,
    Backspace,
    Tab,
    ShiftLeft,
    ShiftRight,
    ControlLeft,
    AltLeft,
    ArrowLeft,
    ArrowRight,
    ArrowUp,
    ArrowDown,
    Minus,
    Equal,
    Comma,
    Period,
    Slash,
    Semicolon,
    Quote,
    BracketLeft,
    BracketRight,
    Backslash,
}

/// A physical key that bindings and rules can name.
#[derive(Clone, Copy, Debug, PartialEq, Eq, Structural)]
pub enum Key {
    Named(NamedKey),
    /// `KeyA`..`KeyZ`, by the upper-case letter.
    Letter(char),
    /// `Digit0`..`Digit9`, by the digit character.
    Digit(char),
    /// `F1`..`F12`, by number.
    Function(u8),
}

/// A mouse button.
#[derive(Clone, Copy, Debug, PartialEq, Eq, Structural)]
pub enum MouseButton {
    Left,
    Right,
    Middle,
    Back,
    Forward,
    Other(u16),
}

/// One physical input, referenced by name so projects stay data-only.
#[derive(Clone, Debug)]
pub enum Binding {
    /// Key by name, e.g. `"Space"`, `"ArrowLeft"`, `"KeyW"`.
    Key(String),
    Mouse(String),
    /// Gamepad button by name: `"South"` (A/Cross), `"East"`, `"North"`,
    /// `"West"`, `"Start"`, `"Select"`, `"Mode"`, `"LeftThumb"`, `"RightThumb"`,
    /// `"DPadUp"`/`"DPadDown"`/`"DPadLeft"`/`"DPadRight"`, `"LeftTrigger"`,
    /// `"RightTrigger"`, `"LeftTrigger2"`, `"RightTrigger2"`.
    Pad(String),
    /// A stick pushed beyond `0.5` in a direction: `"Left"`, `"Right"`,
    /// `"Up"`, `"Down"`, optionally prefixed `"LeftStick"`/`"RightStick"`.
    Stick(String),
}

/// Directions a stick is pushed past the threshold this frame.
#[derive(Clone, Copy, Debug, PartialEq, Eq, Structural, Default)]
pub struct StickDirs {
    pub left: bool,
    pub right: bool,
    pub up: bool,
    pub down: bool,
}

/// A stick at rest: no direction active.
pub open spec fn centered() -> StickDirs {
    StickDirs { left: false, right: false, up: false, down: false }
}

// ---------------------------------------------------------------------------
// Names
// ---------------------------------------------------------------------------

pub open spec fn is_upper(c: char) -> bool {
    'A' <= c <= 'Z'
}

pub open spec fn is_digit(c: char) -> bool {
    '0' <= c <= '9'
}

/// The key a name refers to, if any.
pub open spec fn key_of_name(s: Seq<char>) -> Option<Key> {
    if s == "Space"@ {
        Some(Key::Named(NamedKey::Space))
    } else if s == "Escape"@ || s == "Esc"@ {
        Some(Key::Named(NamedKey::Escape))
    } else if s == "Enter"@ {
        Some(Key::Named(NamedKey::Enter))
    } else if s == "Backspace"@ {
        Some(Key::Named(NamedKey::Backspace))
    } else if s == "Tab"@ {
        Some(Key::Named(NamedKey::Tab))
    } else if s == "ShiftLeft"@ {
        Some(Key::Named(NamedKey::ShiftLeft))
    } else if s == "ShiftRight"@ {
        Some(Key::Named(NamedKey::ShiftRight))
    } else if s == "ControlLeft"@ || s == "Ctrl"@ {
        Some(Key::Named(NamedKey::ControlLeft))
    } else if s == "AltLeft"@ {
        Some(Key::Named(NamedKey::AltLeft))
    } else if s == "ArrowLeft"@ || s == "Left"@ {
        Some(Key::Named(NamedKey::ArrowLeft))
    } else if s == "ArrowRight"@ || s == "Right"@ {
        Some(Key::Named(NamedKey::ArrowRight))
    } else if s == "ArrowUp"@ || s == "Up"@ {
        Some(Key::Named(NamedKey::ArrowUp))
    } else if s == "ArrowDown"@ || s == "Down"@ {
        Some(Key::Named(NamedKey::ArrowDown))
    } else if s == "Minus"@ {
        Some(Key::Named(NamedKey::Minus))
    } else if s == "Equal"@ {
        Some(Key::Named(NamedKey::Equal))
    } else if s == "Comma"@ {
        Some(Key::Named(NamedKey::Comma))
    } else if s == "Period"@ {
        Some(Key::Named(NamedKey::Period))
    } else if s == "Slash"@ {
        Some(Key::Named(NamedKey::Slash))
    } else if s == "Semicolon"@ {
        Some(Key::Named(NamedKey::Semicolon))
    } else if s == "Quote"@ {
        Some(Key::Named(NamedKey::Quote))
    } else if s == "BracketLeft"@ {
        Some(Key::Named(NamedKey::BracketLeft))
    } else if s == "BracketRight"@ {
        Some(Key::Named(NamedKey::BracketRight))
    } else if s == "Backslash"@ {
        Some(Key::Named(NamedKey::Backslash))
    } else if s.len() == 4 && s.take(3) == "Key"@ {
        if is_upper(s[3]) {
            Some(Key::Letter(s[3]))
        } else {
            None
        }
    } else if s.len() == 6 && s.take(5) == "Digit"@ {
        if is_digit(s[5]) {
            Some(Key::Digit(s[5]))
        } else {
            None
        }
    } else if s.len() == 2 && s[0] == 'F' {
        if '1' <= s[1] <= '9' {
            Some(Key::Function((s[1] as u32 - '0' as u32) as u8))
        } else {
            None
        }
    } else if s.len() == 3 && s[0] == 'F' && s[1] == '1' {
        if '0' <= s[2] <= '2' {
            Some(Key::Function((10 + (s[2] as u32 - '0' as u32)) as u8))
        } else {
            None
        }
    } else {
        None
    }
}

/// The name of a key: the name of its physical key code (`Space`,
/// `ArrowUp`, `KeyA`, `Digit0`, `F12`, ...).
pub open spec fn key_name(k: Key) -> Seq<char> {
    match k {
        Key::Named(n) => named_key_name(n),
        Key::Letter(c) => "Key"@ + seq![c],
        Key::Digit(c) => "Digit"@ + seq![c],
        Key::Function(n) => if n < 10 {
            seq!['F', (n + 48) as char]
        } else {
            seq!['F', '1', (n - 10 + 48) as char]
        },
    }
}

pub open spec fn named_key_name(n: NamedKey) -> Seq<char> {
    match n {
        NamedKey::Space => "Space"@,
        NamedKey::Escape => "Escape"@,
        NamedKey::Enter => "Enter"@,
        NamedKey::Backspace => "Backspace"@,
        NamedKey::Tab => "Tab"@,
        NamedKey::ShiftLeft => "ShiftLeft"@,
        NamedKey::ShiftRight => "ShiftRight"@,
        NamedKey::ControlLeft => "ControlLeft"@,
        NamedKey::AltLeft => "AltLeft"@,
        NamedKey::ArrowLeft => "ArrowLeft"@,
        NamedKey::ArrowRight => "ArrowRight"@,
        NamedKey::ArrowUp => "ArrowUp"@,
        NamedKey::ArrowDown => "ArrowDown"@,
        NamedKey::Minus => "Minus"@,
        NamedKey::Equal => "Equal"@,
        NamedKey::Comma => "Comma"@,
        NamedKey::Period => "Period"@,
        NamedKey::Slash => "Slash"@,
        NamedKey::Semicolon => "Semicolon"@,
        NamedKey::Quote => "Quote"@,
        NamedKey::BracketLeft => "BracketLeft"@,
        NamedKey::BracketRight => "BracketRight"@,
        NamedKey::Backslash => "Backslash"@,
    }
}

/// A key that has a name: letters `A`..`Z`, digits, `F1`..`F12`.
pub open spec fn nameable(k: Key) -> bool {
    match k {
        Key::Named(_) => true,
        Key::Letter(c) => is_upper(c),
        Key::Digit(c) => is_digit(c),
        Key::Function(n) => 1 <= n <= 12,
    }
}

/// Law: every key's name resolves back to that key, so no two keys share a
/// name and a binding by name follows exactly the key of that name.
pub proof fn law_key_name_round_trip(k: Key)
    requires
        nameable(k),
    ensures
        key_of_name(key_name(k)) == Some(k),
{
    match k {
        Key::Named(n) => lemma_named_round_trip(n),
        Key::Letter(c) => lemma_letter_round_trip(c),
        Key::Digit(c) => lemma_digit_round_trip(c),
        Key::Function(n) => lemma_function_round_trip(n),
    }
}

proof fn lemma_named_round_trip(n: NamedKey)
    ensures
        key_of_name(named_key_name(n)) == Some(Key::Named(n)),
{
    reveal_strlit("Space");
    reveal_strlit("Escape");
    reveal_strlit("Esc");
    reveal_strlit("Enter");
    reveal_strlit("Backspace");
    reveal_strlit("Tab");
    reveal_strlit("ShiftLeft");
    reveal_strlit("ShiftRight");
    reveal_strlit("ControlLeft");
    reveal_strlit("Ctrl");
    reveal_strlit("AltLeft");
    reveal_strlit("ArrowLeft");
    reveal_strlit("Left");
    reveal_strlit("ArrowRight");
    reveal_strlit("Right");
    reveal_strlit("ArrowUp");
    reveal_strlit("Up");
    reveal_strlit("ArrowDown");
    reveal_strlit("Down");
    reveal_strlit("Minus");
    reveal_strlit("Equal");
    reveal_strlit("Comma");
    reveal_strlit("Period");
    reveal_strlit("Slash");
    reveal_strlit("Semicolon");
    reveal_strlit("Quote");
    reveal_strlit("BracketLeft");
    reveal_strlit("BracketRight");
    reveal_strlit("Backslash");
    reveal_strlit("Key");
    reveal_strlit("Digit");
    match n {
        NamedKey::Space => {
            
            assert(key_of_name("Space"@) == Some(Key::Named(NamedKey::Space)));
        },
        NamedKey::Escape => {
            assert("Escape"@ != "Space"@) by {
                assert("Escape"@.len() != "Space"@.len());
            }
            assert(key_of_name("Escape"@) == Some(Key::Named(NamedKey::Escape)));
        },
        NamedKey::Enter => {
            assert("Enter"@ != "Space"@) by {
                assert("Enter"@[0] != "Space"@[0]);
            }
            assert("Enter"@ != "Escape"@) by {
                assert("Enter"@.len() != "Escape"@.len());
            }
            assert("Enter"@ != "Esc"@) by {
                assert("Enter"@.len() != "Esc"@.len());
            }
            assert(key_of_name("Enter"@) == Some(Key::Named(NamedKey::Enter)));
        },
        NamedKey::Backspace => {
            assert("Backspace"@ != "Space"@) by {
                assert("Backspace"@.len() != "Space"@.len());
            }
            assert("Backspace"@ != "Escape"@) by {
                assert("Backspace"@.len() != "Escape"@.len());
            }
            assert("Backspace"@ != "Esc"@) by {
                assert("Backspace"@.len() != "Esc"@.len());
            }
            assert("Backspace"@ != "Enter"@) by {
                assert("Backspace"@.len() != "Enter"@.len());
            }
            assert(key_of_name("Backspace"@) == Some(Key::Named(NamedKey::Backspace)));
        },
        NamedKey::Tab => {
            assert("Tab"@ != "Space"@) by {
                assert("Tab"@.len() != "Space"@.len());
            }
            assert("Tab"@ != "Escape"@) by {
                assert("Tab"@.len() != "Escape"@.len());
            }
            assert("Tab"@ != "Esc"@) by {
                assert("Tab"@[0] != "Esc"@[0]);
            }
            assert("Tab"@ != "Enter"@) by {
                assert("Tab"@.len() != "Enter"@.len());
            }
            assert("Tab"@ != "Backspace"@) by {
                assert("Tab"@.len() != "Backspace"@.len());
            }
            assert(key_of_name("Tab"@) == Some(Key::Named(NamedKey::Tab)));
        },
        NamedKey::ShiftLeft => {
            assert("ShiftLeft"@ != "Space"@) by {
                assert("ShiftLeft"@.len() != "Space"@.len());
            }
            assert("ShiftLeft"@ != "Escape"@) by {
                assert("ShiftLeft"@.len() != "Escape"@.len());
            }
            assert("ShiftLeft"@ != "Esc"@) by {
                assert("ShiftLeft"@.len() != "Esc"@.len());
            }
            assert("ShiftLeft"@ != "Enter"@) by {
                assert("ShiftLeft"@.len() != "Enter"@.len());
            }
            assert("ShiftLeft"@ != "Backspace"@) by {
                assert("ShiftLeft"@[0] != "Backspace"@[0]);
            }
            assert("ShiftLeft"@ != "Tab"@) by {
                assert("ShiftLeft"@.len() != "Tab"@.len());
            }
            assert(key_of_name("ShiftLeft"@) == Some(Key::Named(NamedKey::ShiftLeft)));
        },
        NamedKey::ShiftRight => {
            assert("ShiftRight"@ != "Space"@) by {
                assert("ShiftRight"@.len() != "Space"@.len());
            }
            assert("ShiftRight"@ != "Escape"@) by {
                assert("ShiftRight"@.len() != "Escape"@.len());
            }
            assert("ShiftRight"@ != "Esc"@) by {
                assert("ShiftRight"@.len() != "Esc"@.len());
            }
            assert("ShiftRight"@ != "Enter"@) by {
                assert("ShiftRight"@.len() != "Enter"@.len());
            }
            assert("ShiftRight"@ != "Backspace"@) by {
                assert("ShiftRight"@.len() != "Backspace"@.len());
            }
            assert("ShiftRight"@ != "Tab"@) by {
                assert("ShiftRight"@.len() != "Tab"@.len());
            }
            assert("ShiftRight"@ != "ShiftLeft"@) by {
                assert("ShiftRight"@.len() != "ShiftLeft"@.len());
            }
            assert(key_of_name("ShiftRight"@) == Some(Key::Named(NamedKey::ShiftRight)));
        },
        NamedKey::ControlLeft => {
            assert("ControlLeft"@ != "Space"@) by {
                assert("ControlLeft"@.len() != "Space"@.len());
            }
            assert("ControlLeft"@ != "Escape"@) by {
                assert("ControlLeft"@.len() != "Escape"@.len());
            }
            assert("ControlLeft"@ != "Esc"@) by {
                assert("ControlLeft"@.len() != "Esc"@.len());
            }
            assert("ControlLeft"@ != "Enter"@) by {
                assert("ControlLeft"@.len() != "Enter"@.len());
            }
            assert("ControlLeft"@ != "Backspace"@) by {
                assert("ControlLeft"@.len() != "Backspace"@.len());
            }
            assert("ControlLeft"@ != "Tab"@) by {
                assert("ControlLeft"@.len() != "Tab"@.len());
            }
            assert("ControlLeft"@ != "ShiftLeft"@) by {
                assert("ControlLeft"@.len() != "ShiftLeft"@.len());
            }
            assert("ControlLeft"@ != "ShiftRight"@) by {
                assert("ControlLeft"@.len() != "ShiftRight"@.len());
            }
            assert(key_of_name("ControlLeft"@) == Some(Key::Named(NamedKey::ControlLeft)));
        },
        NamedKey::AltLeft => {
            assert("AltLeft"@ != "Space"@) by {
                assert("AltLeft"@.len() != "Space"@.len());
            }
            assert("AltLeft"@ != "Escape"@) by {
                assert("AltLeft"@.len() != "Escape"@.len());
            }
            assert("AltLeft"@ != "Esc"@) by {
                assert("AltLeft"@.len() != "Esc"@.len());
            }
            assert("AltLeft"@ != "Enter"@) by {
                assert("AltLeft"@.len() != "Enter"@.len());
            }
            assert("AltLeft"@ != "Backspace"@) by {
                assert("AltLeft"@.len() != "Backspace"@.len());
            }
            assert("AltLeft"@ != "Tab"@) by {
                assert("AltLeft"@.len() != "Tab"@.len());
            }
            assert("AltLeft"@ != "ShiftLeft"@) by {
                assert("AltLeft"@.len() != "ShiftLeft"@.len());
            }
            assert("AltLeft"@ != "ShiftRight"@) by {
                assert("AltLeft"@.len() != "ShiftRight"@.len());
            }
            assert("AltLeft"@ != "ControlLeft"@) by {
                assert("AltLeft"@.len() != "ControlLeft"@.len());
            }
            assert("AltLeft"@ != "Ctrl"@) by {
                assert("AltLeft"@.len() != "Ctrl"@.len());
            }
            assert(key_of_name("AltLeft"@) == Some(Key::Named(NamedKey::AltLeft)));
        },
        NamedKey::ArrowLeft => {
            assert("ArrowLeft"@ != "Space"@) by {
                assert("ArrowLeft"@.len() != "Space"@.len());
            }
            assert("ArrowLeft"@ != "Escape"@) by {
                assert("ArrowLeft"@.len() != "Escape"@.len());
            }
            assert("ArrowLeft"@ != "Esc"@) by {
                assert("ArrowLeft"@.len() != "Esc"@.len());
            }
            assert("ArrowLeft"@ != "Enter"@) by {
                assert("ArrowLeft"@.len() != "Enter"@.len());
            }
            assert("ArrowLeft"@ != "Backspace"@) by {
                assert("ArrowLeft"@[0] != "Backspace"@[0]);
            }
            assert("ArrowLeft"@ != "Tab"@) by {
                assert("ArrowLeft"@.len() != "Tab"@.len());
            }
            assert("ArrowLeft"@ != "ShiftLeft"@) by {
                assert("ArrowLeft"@[0] != "ShiftLeft"@[0]);
            }
            assert("ArrowLeft"@ != "ShiftRight"@) by {
                assert("ArrowLeft"@.len() != "ShiftRight"@.len());
            }
            assert("ArrowLeft"@ != "ControlLeft"@) by {
                assert("ArrowLeft"@.len() != "ControlLeft"@.len());
            }
            assert("ArrowLeft"@ != "Ctrl"@) by {
                assert("ArrowLeft"@.len() != "Ctrl"@.len());
            }
            assert("ArrowLeft"@ != "AltLeft"@) by {
                assert("ArrowLeft"@.len() != "AltLeft"@.len());
            }
            assert(key_of_name("ArrowLeft"@) == Some(Key::Named(NamedKey::ArrowLeft)));
        },
        NamedKey::ArrowRight => {
            assert("ArrowRight"@ != "Space"@) by {
                assert("ArrowRight"@.len() != "Space"@.len());
            }
            assert("ArrowRight"@ != "Escape"@) by {
                assert("ArrowRight"@.len() != "Escape"@.len());
            }
            assert("ArrowRight"@ != "Esc"@) by {
                assert("ArrowRight"@.len() != "Esc"@.len());
            }
            assert("ArrowRight"@ != "Enter"@) by {
                assert("ArrowRight"@.len() != "Enter"@.len());
            }
            assert("ArrowRight"@ != "Backspace"@) by {
                assert("ArrowRight"@.len() != "Backspace"@.len());
            }
            assert("ArrowRight"@ != "Tab"@) by {
                assert("ArrowRight"@.len() != "Tab"@.len());
            }
            assert("ArrowRight"@ != "ShiftLeft"@) by {
                assert("ArrowRight"@.len() != "ShiftLeft"@.len());
            }
            assert("ArrowRight"@ != "ShiftRight"@) by {
                assert("ArrowRight"@[0] != "ShiftRight"@[0]);
            }
            assert("ArrowRight"@ != "ControlLeft"@) by {
                assert("ArrowRight"@.len() != "ControlLeft"@.len());
            }
            assert("ArrowRight"@ != "Ctrl"@) by {
                assert("ArrowRight"@.len() != "Ctrl"@.len());
            }
            assert("ArrowRight"@ != "AltLeft"@) by {
                assert("ArrowRight"@.len() != "AltLeft"@.len());
            }
            assert("ArrowRight"@ != "ArrowLeft"@) by {
                assert("ArrowRight"@.len() != "ArrowLeft"@.len());
            }
            assert("ArrowRight"@ != "Left"@) by {
                assert("ArrowRight"@.len() != "Left"@.len());
            }
            assert(key_of_name("ArrowRight"@) == Some(Key::Named(NamedKey::ArrowRight)));
        },
        NamedKey::ArrowUp => {
            assert("ArrowUp"@ != "Space"@) by {
                assert("ArrowUp"@.len() != "Space"@.len());
            }
            assert("ArrowUp"@ != "Escape"@) by {
                assert("ArrowUp"@.len() != "Escape"@.len());
            }
            assert("ArrowUp"@ != "Esc"@) by {
                assert("ArrowUp"@.len() != "Esc"@.len());
            }
            assert("ArrowUp"@ != "Enter"@) by {
                assert("ArrowUp"@.len() != "Enter"@.len());
            }
            assert("ArrowUp"@ != "Backspace"@) by {
                assert("ArrowUp"@.len() != "Backspace"@.len());
            }
            assert("ArrowUp"@ != "Tab"@) by {
                assert("ArrowUp"@.len() != "Tab"@.len());
            }
            assert("ArrowUp"@ != "ShiftLeft"@) by {
                assert("ArrowUp"@.len() != "ShiftLeft"@.len());
            }
            assert("ArrowUp"@ != "ShiftRight"@) by {
                assert("ArrowUp"@.len() != "ShiftRight"@.len());
            }
            assert("ArrowUp"@ != "ControlLeft"@) by {
                assert("ArrowUp"@.len() != "ControlLeft"@.len());
            }
            assert("ArrowUp"@ != "Ctrl"@) by {
                assert("ArrowUp"@.len() != "Ctrl"@.len());
            }
            assert("ArrowUp"@ != "AltLeft"@) by {
                assert("ArrowUp"@[1] != "AltLeft"@[1]);
            }
            assert("ArrowUp"@ != "ArrowLeft"@) by {
                assert("ArrowUp"@.len() != "ArrowLeft"@.len());
            }
            assert("ArrowUp"@ != "Left"@) by {
                assert("ArrowUp"@.len() != "Left"@.len());
            }
            assert("ArrowUp"@ != "ArrowRight"@) by {
                assert("ArrowUp"@.len() != "ArrowRight"@.len());
            }
            assert("ArrowUp"@ != "Right"@) by {
                assert("ArrowUp"@.len() != "Right"@.len());
            }
            assert(key_of_name("ArrowUp"@) == Some(Key::Named(NamedKey::ArrowUp)));
        },
        NamedKey::ArrowDown => {
            assert("ArrowDown"@ != "Space"@) by {
                assert("ArrowDown"@.len() != "Space"@.len());
            }
            assert("ArrowDown"@ != "Escape"@) by {
                assert("ArrowDown"@.len() != "Escape"@.len());
            }
            assert("ArrowDown"@ != "Esc"@) by {
                assert("ArrowDown"@.len() != "Esc"@.len());
            }
            assert("ArrowDown"@ != "Enter"@) by {
                assert("ArrowDown"@.len() != "Enter"@.len());
            }
            assert("ArrowDown"@ != "Backspace"@) by {
                assert("ArrowDown"@[0] != "Backspace"@[0]);
            }
            assert("ArrowDown"@ != "Tab"@) by {
                assert("ArrowDown"@.len() != "Tab"@.len());
            }
            assert("ArrowDown"@ != "ShiftLeft"@) by {
                assert("ArrowDown"@[0] != "ShiftLeft"@[0]);
            }
            assert("ArrowDown"@ != "ShiftRight"@) by {
                assert("ArrowDown"@.len() != "ShiftRight"@.len());
            }
            assert("ArrowDown"@ != "ControlLeft"@) by {
                assert("ArrowDown"@.len() != "ControlLeft"@.len());
            }
            assert("ArrowDown"@ != "Ctrl"@) by {
                assert("ArrowDown"@.len() != "Ctrl"@.len());
            }
            assert("ArrowDown"@ != "AltLeft"@) by {
                assert("ArrowDown"@.len() != "AltLeft"@.len());
            }
            assert("ArrowDown"@ != "ArrowLeft"@) by {
                assert("ArrowDown"@[5] != "ArrowLeft"@[5]);
            }
            assert("ArrowDown"@ != "Left"@) by {
                assert("ArrowDown"@.len() != "Left"@.len());
            }
            assert("ArrowDown"@ != "ArrowRight"@) by {
                assert("ArrowDown"@.len() != "ArrowRight"@.len());
            }
            assert("ArrowDown"@ != "Right"@) by {
                assert("ArrowDown"@.len() != "Right"@.len());
            }
            assert("ArrowDown"@ != "ArrowUp"@) by {
                assert("ArrowDown"@.len() != "ArrowUp"@.len());
            }
            assert("ArrowDown"@ != "Up"@) by {
                assert("ArrowDown"@.len() != "Up"@.len());
            }
            assert(key_of_name("ArrowDown"@) == Some(Key::Named(NamedKey::ArrowDown)));
        },
        NamedKey::Minus => {
            assert("Minus"@ != "Space"@) by {
                assert("Minus"@[0] != "Space"@[0]);
            }
            assert("Minus"@ != "Escape"@) by {
                assert("Minus"@.len() != "Escape"@.len());
            }
            assert("Minus"@ != "Esc"@) by {
                assert("Minus"@.len() != "Esc"@.len());
            }
            assert("Minus"@ != "Enter"@) by {
                assert("Minus"@[0] != "Enter"@[0]);
            }
            assert("Minus"@ != "Backspace"@) by {
                assert("Minus"@.len() != "Backspace"@.len());
            }
            assert("Minus"@ != "Tab"@) by {
                assert("Minus"@.len() != "Tab"@.len());
            }
            assert("Minus"@ != "ShiftLeft"@) by {
                assert("Minus"@.len() != "ShiftLeft"@.len());
            }
            assert("Minus"@ != "ShiftRight"@) by {
                assert("Minus"@.len() != "ShiftRight"@.len());
            }
            assert("Minus"@ != "ControlLeft"@) by {
                assert("Minus"@.len() != "ControlLeft"@.len());
            }
            assert("Minus"@ != "Ctrl"@) by {
                assert("Minus"@.len() != "Ctrl"@.len());
            }
            assert("Minus"@ != "AltLeft"@) by {
                assert("Minus"@.len() != "AltLeft"@.len());
            }
            assert("Minus"@ != "ArrowLeft"@) by {
                assert("Minus"@.len() != "ArrowLeft"@.len());
            }
            assert("Minus"@ != "Left"@) by {
                assert("Minus"@.len() != "Left"@.len());
            }
            assert("Minus"@ != "ArrowRight"@) by {
                assert("Minus"@.len() != "ArrowRight"@.len());
            }
            assert("Minus"@ != "Right"@) by {
                assert("Minus"@[0] != "Right"@[0]);
            }
            assert("Minus"@ != "ArrowUp"@) by {
                assert("Minus"@.len() != "ArrowUp"@.len());
            }
            assert("Minus"@ != "Up"@) by {
                assert("Minus"@.len() != "Up"@.len());
            }
            assert("Minus"@ != "ArrowDown"@) by {
                assert("Minus"@.len() != "ArrowDown"@.len());
            }
            assert("Minus"@ != "Down"@) by {
                assert("Minus"@.len() != "Down"@.len());
            }
            assert(key_of_name("Minus"@) == Some(Key::Named(NamedKey::Minus)));
        },
        NamedKey::Equal => {
            assert("Equal"@ != "Space"@) by {
                assert("Equal"@[0] != "Space"@[0]);
            }
            assert("Equal"@ != "Escape"@) by {
                assert("Equal"@.len() != "Escape"@.len());
            }
            assert("Equal"@ != "Esc"@) by {
                assert("Equal"@.len() != "Esc"@.len());
            }
            assert("Equal"@ != "Enter"@) by {
                assert("Equal"@[1] != "Enter"@[1]);
            }
            assert("Equal"@ != "Backspace"@) by {
                assert("Equal"@.len() != "Backspace"@.len());
            }
            assert("Equal"@ != "Tab"@) by {
                assert("Equal"@.len() != "Tab"@.len());
            }
            assert("Equal"@ != "ShiftLeft"@) by {
                assert("Equal"@.len() != "ShiftLeft"@.len());
            }
            assert("Equal"@ != "ShiftRight"@) by {
                assert("Equal"@.len() != "ShiftRight"@.len());
            }
            assert("Equal"@ != "ControlLeft"@) by {
                assert("Equal"@.len() != "ControlLeft"@.len());
            }
            assert("Equal"@ != "Ctrl"@) by {
                assert("Equal"@.len() != "Ctrl"@.len());
            }
            assert("Equal"@ != "AltLeft"@) by {
                assert("Equal"@.len() != "AltLeft"@.len());
            }
            assert("Equal"@ != "ArrowLeft"@) by {
                assert("Equal"@.len() != "ArrowLeft"@.len());
            }
            assert("Equal"@ != "Left"@) by {
                assert("Equal"@.len() != "Left"@.len());
            }
            assert("Equal"@ != "ArrowRight"@) by {
                assert("Equal"@.len() != "ArrowRight"@.len());
            }
            assert("Equal"@ != "Right"@) by {
                assert("Equal"@[0] != "Right"@[0]);
            }
            assert("Equal"@ != "ArrowUp"@) by {
                assert("Equal"@.len() != "ArrowUp"@.len());
            }
            assert("Equal"@ != "Up"@) by {
                assert("Equal"@.len() != "Up"@.len());
            }
            assert("Equal"@ != "ArrowDown"@) by {
                assert("Equal"@.len() != "ArrowDown"@.len());
            }
            assert("Equal"@ != "Down"@) by {
                assert("Equal"@.len() != "Down"@.len());
            }
            assert("Equal"@ != "Minus"@) by {
                assert("Equal"@[0] != "Minus"@[0]);
            }
            assert(key_of_name("Equal"@) == Some(Key::Named(NamedKey::Equal)));
        },
        NamedKey::Comma => {
            assert("Comma"@ != "Space"@) by {
                assert("Comma"@[0] != "Space"@[0]);
            }
            assert("Comma"@ != "Escape"@) by {
                assert("Comma"@.len() != "Escape"@.len());
            }
            assert("Comma"@ != "Esc"@) by {
                assert("Comma"@.len() != "Esc"@.len());
            }
            assert("Comma"@ != "Enter"@) by {
                assert("Comma"@[0] != "Enter"@[0]);
            }
            assert("Comma"@ != "Backspace"@) by {
                assert("Comma"@.len() != "Backspace"@.len());
            }
            assert("Comma"@ != "Tab"@) by {
                assert("Comma"@.len() != "Tab"@.len());
            }
            assert("Comma"@ != "ShiftLeft"@) by {
                assert("Comma"@.len() != "ShiftLeft"@.len());
            }
            assert("Comma"@ != "ShiftRight"@) by {
                assert("Comma"@.len() != "ShiftRight"@.len());
            }
            assert("Comma"@ != "ControlLeft"@) by {
                assert("Comma"@.len() != "ControlLeft"@.len());
            }
            assert("Comma"@ != "Ctrl"@) by {
                assert("Comma"@.len() != "Ctrl"@.len());
            }
            assert("Comma"@ != "AltLeft"@) by {
                assert("Comma"@.len() != "AltLeft"@.len());
            }
            assert("Comma"@ != "ArrowLeft"@) by {
                assert("Comma"@.len() != "ArrowLeft"@.len());
            }
            assert("Comma"@ != "Left"@) by {
                assert("Comma"@.len() != "Left"@.len());
            }
            assert("Comma"@ != "ArrowRight"@) by {
                assert("Comma"@.len() != "ArrowRight"@.len());
            }
            assert("Comma"@ != "Right"@) by {
                assert("Comma"@[0] != "Right"@[0]);
            }
            assert("Comma"@ != "ArrowUp"@) by {
                assert("Comma"@.len() != "ArrowUp"@.len());
            }
            assert("Comma"@ != "Up"@) by {
                assert("Comma"@.len() != "Up"@.len());
            }
            assert("Comma"@ != "ArrowDown"@) by {
                assert("Comma"@.len() != "ArrowDown"@.len());
            }
            assert("Comma"@ != "Down"@) by {
                assert("Comma"@.len() != "Down"@.len());
            }
            assert("Comma"@ != "Minus"@) by {
                assert("Comma"@[0] != "Minus"@[0]);
            }
            assert("Comma"@ != "Equal"@) by {
                assert("Comma"@[0] != "Equal"@[0]);
            }
            assert(key_of_name("Comma"@) == Some(Key::Named(NamedKey::Comma)));
        },
        NamedKey::Period => {
            assert("Period"@ != "Space"@) by {
                assert("Period"@.len() != "Space"@.len());
            }
            assert("Period"@ != "Escape"@) by {
                assert("Period"@[0] != "Escape"@[0]);
            }
            assert("Period"@ != "Esc"@) by {
                assert("Period"@.len() != "Esc"@.len());
            }
            assert("Period"@ != "Enter"@) by {
                assert("Period"@.len() != "Enter"@.len());
            }
            assert("Period"@ != "Backspace"@) by {
                assert("Period"@.len() != "Backspace"@.len());
            }
            assert("Period"@ != "Tab"@) by {
                assert("Period"@.len() != "Tab"@.len());
            }
            assert("Period"@ != "ShiftLeft"@) by {
                assert("Period"@.len() != "ShiftLeft"@.len());
            }
            assert("Period"@ != "ShiftRight"@) by {
                assert("Period"@.len() != "ShiftRight"@.len());
            }
            assert("Period"@ != "ControlLeft"@) by {
                assert("Period"@.len() != "ControlLeft"@.len());
            }
            assert("Period"@ != "Ctrl"@) by {
                assert("Period"@.len() != "Ctrl"@.len());
            }
            assert("Period"@ != "AltLeft"@) by {
                assert("Period"@.len() != "AltLeft"@.len());
            }
            assert("Period"@ != "ArrowLeft"@) by {
                assert("Period"@.len() != "ArrowLeft"@.len());
            }
            assert("Period"@ != "Left"@) by {
                assert("Period"@.len() != "Left"@.len());
            }
            assert("Period"@ != "ArrowRight"@) by {
                assert("Period"@.len() != "ArrowRight"@.len());
            }
            assert("Period"@ != "Right"@) by {
                assert("Period"@.len() != "Right"@.len());
            }
            assert("Period"@ != "ArrowUp"@) by {
                assert("Period"@.len() != "ArrowUp"@.len());
            }
            assert("Period"@ != "Up"@) by {
                assert("Period"@.len() != "Up"@.len());
            }
            assert("Period"@ != "ArrowDown"@) by {
                assert("Period"@.len() != "ArrowDown"@.len());
            }
            assert("Period"@ != "Down"@) by {
                assert("Period"@.len() != "Down"@.len());
            }
            assert("Period"@ != "Minus"@) by {
                assert("Period"@.len() != "Minus"@.len());
            }
            assert("Period"@ != "Equal"@) by {
                assert("Period"@.len() != "Equal"@.len());
            }
            assert("Period"@ != "Comma"@) by {
                assert("Period"@.len() != "Comma"@.len());
            }
            assert(key_of_name("Period"@) == Some(Key::Named(NamedKey::Period)));
        },
        NamedKey::Slash => {
            assert("Slash"@ != "Space"@) by {
                assert("Slash"@[1] != "Space"@[1]);
            }
            assert("Slash"@ != "Escape"@) by {
                assert("Slash"@.len() != "Escape"@.len());
            }
            assert("Slash"@ != "Esc"@) by {
                assert("Slash"@.len() != "Esc"@.len());
            }
            assert("Slash"@ != "Enter"@) by {
                assert("Slash"@[0] != "Enter"@[0]);
            }
            assert("Slash"@ != "Backspace"@) by {
                assert("Slash"@.len() != "Backspace"@.len());
            }
            assert("Slash"@ != "Tab"@) by {
                assert("Slash"@.len() != "Tab"@.len());
            }
            assert("Slash"@ != "ShiftLeft"@) by {
                assert("Slash"@.len() != "ShiftLeft"@.len());
            }
            assert("Slash"@ != "ShiftRight"@) by {
                assert("Slash"@.len() != "ShiftRight"@.len());
            }
            assert("Slash"@ != "ControlLeft"@) by {
                assert("Slash"@.len() != "ControlLeft"@.len());
            }
            assert("Slash"@ != "Ctrl"@) by {
                assert("Slash"@.len() != "Ctrl"@.len());
            }
            assert("Slash"@ != "AltLeft"@) by {
                assert("Slash"@.len() != "AltLeft"@.len());
            }
            assert("Slash"@ != "ArrowLeft"@) by {
                assert("Slash"@.len() != "ArrowLeft"@.len());
            }
            assert("Slash"@ != "Left"@) by {
                assert("Slash"@.len() != "Left"@.len());
            }
            assert("Slash"@ != "ArrowRight"@) by {
                assert("Slash"@.len() != "ArrowRight"@.len());
            }
            assert("Slash"@ != "Right"@) by {
                assert("Slash"@[0] != "Right"@[0]);
            }
            assert("Slash"@ != "ArrowUp"@) by {
                assert("Slash"@.len() != "ArrowUp"@.len());
            }
            assert("Slash"@ != "Up"@) by {
                assert("Slash"@.len() != "Up"@.len());
            }
            assert("Slash"@ != "ArrowDown"@) by {
                assert("Slash"@.len() != "ArrowDown"@.len());
            }
            assert("Slash"@ != "Down"@) by {
                assert("Slash"@.len() != "Down"@.len());
            }
            assert("Slash"@ != "Minus"@) by {
                assert("Slash"@[0] != "Minus"@[0]);
            }
            assert("Slash"@ != "Equal"@) by {
                assert("Slash"@[0] != "Equal"@[0]);
            }
            assert("Slash"@ != "Comma"@) by {
                assert("Slash"@[0] != "Comma"@[0]);
            }
            assert("Slash"@ != "Period"@) by {
                assert("Slash"@.len() != "Period"@.len());
            }
            assert(key_of_name("Slash"@) == Some(Key::Named(NamedKey::Slash)));
        },
        NamedKey::Semicolon => {
            assert("Semicolon"@ != "Space"@) by {
                assert("Semicolon"@.len() != "Space"@.len());
            }
            assert("Semicolon"@ != "Escape"@) by {
                assert("Semicolon"@.len() != "Escape"@.len());
            }
            assert("Semicolon"@ != "Esc"@) by {
                assert("Semicolon"@.len() != "Esc"@.len());
            }
            assert("Semicolon"@ != "Enter"@) by {
                assert("Semicolon"@.len() != "Enter"@.len());
            }
            assert("Semicolon"@ != "Backspace"@) by {
                assert("Semicolon"@[0] != "Backspace"@[0]);
            }
            assert("Semicolon"@ != "Tab"@) by {
                assert("Semicolon"@.len() != "Tab"@.len());
            }
            assert("Semicolon"@ != "ShiftLeft"@) by {
                assert("Semicolon"@[1] != "ShiftLeft"@[1]);
            }
            assert("Semicolon"@ != "ShiftRight"@) by {
                assert("Semicolon"@.len() != "ShiftRight"@.len());
            }
            assert("Semicolon"@ != "ControlLeft"@) by {
                assert("Semicolon"@.len() != "ControlLeft"@.len());
            }
            assert("Semicolon"@ != "Ctrl"@) by {
                assert("Semicolon"@.len() != "Ctrl"@.len());
            }
            assert("Semicolon"@ != "AltLeft"@) by {
                assert("Semicolon"@.len() != "AltLeft"@.len());
            }
            assert("Semicolon"@ != "ArrowLeft"@) by {
                assert("Semicolon"@[0] != "ArrowLeft"@[0]);
            }
            assert("Semicolon"@ != "Left"@) by {
                assert("Semicolon"@.len() != "Left"@.len());
            }
            assert("Semicolon"@ != "ArrowRight"@) by {
                assert("Semicolon"@.len() != "ArrowRight"@.len());
            }
            assert("Semicolon"@ != "Right"@) by {
                assert("Semicolon"@.len() != "Right"@.len());
            }
            assert("Semicolon"@ != "ArrowUp"@) by {
                assert("Semicolon"@.len() != "ArrowUp"@.len());
            }
            assert("Semicolon"@ != "Up"@) by {
                assert("Semicolon"@.len() != "Up"@.len());
            }
            assert("Semicolon"@ != "ArrowDown"@) by {
                assert("Semicolon"@[0] != "ArrowDown"@[0]);
            }
            assert("Semicolon"@ != "Down"@) by {
                assert("Semicolon"@.len() != "Down"@.len());
            }
            assert("Semicolon"@ != "Minus"@) by {
                assert("Semicolon"@.len() != "Minus"@.len());
            }
            assert("Semicolon"@ != "Equal"@) by {
                assert("Semicolon"@.len() != "Equal"@.len());
            }
            assert("Semicolon"@ != "Comma"@) by {
                assert("Semicolon"@.len() != "Comma"@.len());
            }
            assert("Semicolon"@ != "Period"@) by {
                assert("Semicolon"@.len() != "Period"@.len());
            }
            assert("Semicolon"@ != "Slash"@) by {
                assert("Semicolon"@.len() != "Slash"@.len());
            }
            assert(key_of_name("Semicolon"@) == Some(Key::Named(NamedKey::Semicolon)));
        },
        NamedKey::Quote => {
            assert("Quote"@ != "Space"@) by {
                assert("Quote"@[0] != "Space"@[0]);
            }
            assert("Quote"@ != "Escape"@) by {
                assert("Quote"@.len() != "Escape"@.len());
            }
            assert("Quote"@ != "Esc"@) by {
                assert("Quote"@.len() != "Esc"@.len());
            }
            assert("Quote"@ != "Enter"@) by {
                assert("Quote"@[0] != "Enter"@[0]);
            }
            assert("Quote"@ != "Backspace"@) by {
                assert("Quote"@.len() != "Backspace"@.len());
            }
            assert("Quote"@ != "Tab"@) by {
                assert("Quote"@.len() != "Tab"@.len());
            }
            assert("Quote"@ != "ShiftLeft"@) by {
                assert("Quote"@.len() != "ShiftLeft"@.len());
            }
            assert("Quote"@ != "ShiftRight"@) by {
                assert("Quote"@.len() != "ShiftRight"@.len());
            }
            assert("Quote"@ != "ControlLeft"@) by {
                assert("Quote"@.len() != "ControlLeft"@.len());
            }
            assert("Quote"@ != "Ctrl"@) by {
                assert("Quote"@.len() != "Ctrl"@.len());
            }
            assert("Quote"@ != "AltLeft"@) by {
                assert("Quote"@.len() != "AltLeft"@.len());
            }
            assert("Quote"@ != "ArrowLeft"@) by {
                assert("Quote"@.len() != "ArrowLeft"@.len());
            }
            assert("Quote"@ != "Left"@) by {
                assert("Quote"@.len() != "Left"@.len());
            }
            assert("Quote"@ != "ArrowRight"@) by {
                assert("Quote"@.len() != "ArrowRight"@.len());
            }
            assert("Quote"@ != "Right"@) by {
                assert("Quote"@[0] != "Right"@[0]);
            }
            assert("Quote"@ != "ArrowUp"@) by {
                assert("Quote"@.len() != "ArrowUp"@.len());
            }
            assert("Quote"@ != "Up"@) by {
                assert("Quote"@.len() != "Up"@.len());
            }
            assert("Quote"@ != "ArrowDown"@) by {
                assert("Quote"@.len() != "ArrowDown"@.len());
            }
            assert("Quote"@ != "Down"@) by {
                assert("Quote"@.len() != "Down"@.len());
            }
            assert("Quote"@ != "Minus"@) by {
                assert("Quote"@[0] != "Minus"@[0]);
            }
            assert("Quote"@ != "Equal"@) by {
                assert("Quote"@[0] != "Equal"@[0]);
            }
            assert("Quote"@ != "Comma"@) by {
                assert("Quote"@[0] != "Comma"@[0]);
            }
            assert("Quote"@ != "Period"@) by {
                assert("Quote"@.len() != "Period"@.len());
            }
            assert("Quote"@ != "Slash"@) by {
                assert("Quote"@[0] != "Slash"@[0]);
            }
            assert("Quote"@ != "Semicolon"@) by {
                assert("Quote"@.len() != "Semicolon"@.len());
            }
            assert(key_of_name("Quote"@) == Some(Key::Named(NamedKey::Quote)));
        },
        NamedKey::BracketLeft => {
            assert("BracketLeft"@ != "Space"@) by {
                assert("BracketLeft"@.len() != "Space"@.len());
            }
            assert("BracketLeft"@ != "Escape"@) by {
                assert("BracketLeft"@.len() != "Escape"@.len());
            }
            assert("BracketLeft"@ != "Esc"@) by {
                assert("BracketLeft"@.len() != "Esc"@.len());
            }
            assert("BracketLeft"@ != "Enter"@) by {
                assert("BracketLeft"@.len() != "Enter"@.len());
            }
            assert("BracketLeft"@ != "Backspace"@) by {
                assert("BracketLeft"@.len() != "Backspace"@.len());
            }
            assert("BracketLeft"@ != "Tab"@) by {
                assert("BracketLeft"@.len() != "Tab"@.len());
            }
            assert("BracketLeft"@ != "ShiftLeft"@) by {
                assert("BracketLeft"@.len() != "ShiftLeft"@.len());
            }
            assert("BracketLeft"@ != "ShiftRight"@) by {
                assert("BracketLeft"@.len() != "ShiftRight"@.len());
            }
            assert("BracketLeft"@ != "ControlLeft"@) by {
                assert("BracketLeft"@[0] != "ControlLeft"@[0]);
            }
            assert("BracketLeft"@ != "Ctrl"@) by {
                assert("BracketLeft"@.len() != "Ctrl"@.len());
            }
            assert("BracketLeft"@ != "AltLeft"@) by {
                assert("BracketLeft"@.len() != "AltLeft"@.len());
            }
            assert("BracketLeft"@ != "ArrowLeft"@) by {
                assert("BracketLeft"@.len() != "ArrowLeft"@.len());
            }
            assert("BracketLeft"@ != "Left"@) by {
                assert("BracketLeft"@.len() != "Left"@.len());
            }
            assert("BracketLeft"@ != "ArrowRight"@) by {
                assert("BracketLeft"@.len() != "ArrowRight"@.len());
            }
            assert("BracketLeft"@ != "Right"@) by {
                assert("BracketLeft"@.len() != "Right"@.len());
            }
            assert("BracketLeft"@ != "ArrowUp"@) by {
                assert("BracketLeft"@.len() != "ArrowUp"@.len());
            }
            assert("BracketLeft"@ != "Up"@) by {
                assert("BracketLeft"@.len() != "Up"@.len());
            }
            assert("BracketLeft"@ != "ArrowDown"@) by {
                assert("BracketLeft"@.len() != "ArrowDown"@.len());
            }
            assert("BracketLeft"@ != "Down"@) by {
                assert("BracketLeft"@.len() != "Down"@.len());
            }
            assert("BracketLeft"@ != "Minus"@) by {
                assert("BracketLeft"@.len() != "Minus"@.len());
            }
            assert("BracketLeft"@ != "Equal"@) by {
                assert("BracketLeft"@.len() != "Equal"@.len());
            }
            assert("BracketLeft"@ != "Comma"@) by {
                assert("BracketLeft"@.len() != "Comma"@.len());
            }
            assert("BracketLeft"@ != "Period"@) by {
                assert("BracketLeft"@.len() != "Period"@.len());
            }
            assert("BracketLeft"@ != "Slash"@) by {
                assert("BracketLeft"@.len() != "Slash"@.len());
            }
            assert("BracketLeft"@ != "Semicolon"@) by {
                assert("BracketLeft"@.len() != "Semicolon"@.len());
            }
            assert("BracketLeft"@ != "Quote"@) by {
                assert("BracketLeft"@.len() != "Quote"@.len());
            }
            assert(key_of_name("BracketLeft"@) == Some(Key::Named(NamedKey::BracketLeft)));
        },
        NamedKey::BracketRight => {
            assert("BracketRight"@ != "Space"@) by {
                assert("BracketRight"@.len() != "Space"@.len());
            }
            assert("BracketRight"@ != "Escape"@) by {
                assert("BracketRight"@.len() != "Escape"@.len());
            }
            assert("BracketRight"@ != "Esc"@) by {
                assert("BracketRight"@.len() != "Esc"@.len());
            }
            assert("BracketRight"@ != "Enter"@) by {
                assert("BracketRight"@.len() != "Enter"@.len());
            }
            assert("BracketRight"@ != "Backspace"@) by {
                assert("BracketRight"@.len() != "Backspace"@.len());
            }
            assert("BracketRight"@ != "Tab"@) by {
                assert("BracketRight"@.len() != "Tab"@.len());
            }
            assert("BracketRight"@ != "ShiftLeft"@) by {
                assert("BracketRight"@.len() != "ShiftLeft"@.len());
            }
            assert("BracketRight"@ != "ShiftRight"@) by {
                assert("BracketRight"@.len() != "ShiftRight"@.len());
            }
            assert("BracketRight"@ != "ControlLeft"@) by {
                assert("BracketRight"@.len() != "ControlLeft"@.len());
            }
            assert("BracketRight"@ != "Ctrl"@) by {
                assert("BracketRight"@.len() != "Ctrl"@.len());
            }
            assert("BracketRight"@ != "AltLeft"@) by {
                assert("BracketRight"@.len() != "AltLeft"@.len());
            }
            assert("BracketRight"@ != "ArrowLeft"@) by {
                assert("BracketRight"@.len() != "ArrowLeft"@.len());
            }
            assert("BracketRight"@ != "Left"@) by {
                assert("BracketRight"@.len() != "Left"@.len());
            }
            assert("BracketRight"@ != "ArrowRight"@) by {
                assert("BracketRight"@.len() != "ArrowRight"@.len());
            }
            assert("BracketRight"@ != "Right"@) by {
                assert("BracketRight"@.len() != "Right"@.len());
            }
            assert("BracketRight"@ != "ArrowUp"@) by {
                assert("BracketRight"@.len() != "ArrowUp"@.len());
            }
            assert("BracketRight"@ != "Up"@) by {
                assert("BracketRight"@.len() != "Up"@.len());
            }
            assert("BracketRight"@ != "ArrowDown"@) by {
                assert("BracketRight"@.len() != "ArrowDown"@.len());
            }
            assert("BracketRight"@ != "Down"@) by {
                assert("BracketRight"@.len() != "Down"@.len());
            }
            assert("BracketRight"@ != "Minus"@) by {
                assert("BracketRight"@.len() != "Minus"@.len());
            }
            assert("BracketRight"@ != "Equal"@) by {
                assert("BracketRight"@.len() != "Equal"@.len());
            }
            assert("BracketRight"@ != "Comma"@) by {
                assert("BracketRight"@.len() != "Comma"@.len());
            }
            assert("BracketRight"@ != "Period"@) by {
                assert("BracketRight"@.len() != "Period"@.len());
            }
            assert("BracketRight"@ != "Slash"@) by {
                assert("BracketRight"@.len() != "Slash"@.len());
            }
            assert("BracketRight"@ != "Semicolon"@) by {
                assert("BracketRight"@.len() != "Semicolon"@.len());
            }
            assert("BracketRight"@ != "Quote"@) by {
                assert("BracketRight"@.len() != "Quote"@.len());
            }
            assert("BracketRight"@ != "BracketLeft"@) by {
                assert("BracketRight"@.len() != "BracketLeft"@.len());
            }
            assert(key_of_name("BracketRight"@) == Some(Key::Named(NamedKey::BracketRight)));
        },
        NamedKey::Backslash => {
            assert("Backslash"@ != "Space"@) by {
                assert("Backslash"@.len() != "Space"@.len());
            }
            assert("Backslash"@ != "Escape"@) by {
                assert("Backslash"@.len() != "Escape"@.len());
            }
            assert("Backslash"@ != "Esc"@) by {
                assert("Backslash"@.len() != "Esc"@.len());
            }
            assert("Backslash"@ != "Enter"@) by {
                assert("Backslash"@.len() != "Enter"@.len());
            }
            assert("Backslash"@ != "Backspace"@) by {
                assert("Backslash"@[5] != "Backspace"@[5]);
            }
            assert("Backslash"@ != "Tab"@) by {
                assert("Backslash"@.len() != "Tab"@.len());
            }
            assert("Backslash"@ != "ShiftLeft"@) by {
                assert("Backslash"@[0] != "ShiftLeft"@[0]);
            }
            assert("Backslash"@ != "ShiftRight"@) by {
                assert("Backslash"@.len() != "ShiftRight"@.len());
            }
            assert("Backslash"@ != "ControlLeft"@) by {
                assert("Backslash"@.len() != "ControlLeft"@.len());
            }
            assert("Backslash"@ != "Ctrl"@) by {
                assert("Backslash"@.len() != "Ctrl"@.len());
            }
            assert("Backslash"@ != "AltLeft"@) by {
                assert("Backslash"@.len() != "AltLeft"@.len());
            }
            assert("Backslash"@ != "ArrowLeft"@) by {
                assert("Backslash"@[0] != "ArrowLeft"@[0]);
            }
            assert("Backslash"@ != "Left"@) by {
                assert("Backslash"@.len() != "Left"@.len());
            }
            assert("Backslash"@ != "ArrowRight"@) by {
                assert("Backslash"@.len() != "ArrowRight"@.len());
            }
            assert("Backslash"@ != "Right"@) by {
                assert("Backslash"@.len() != "Right"@.len());
            }
            assert("Backslash"@ != "ArrowUp"@) by {
                assert("Backslash"@.len() != "ArrowUp"@.len());
            }
            assert("Backslash"@ != "Up"@) by {
                assert("Backslash"@.len() != "Up"@.len());
            }
            assert("Backslash"@ != "ArrowDown"@) by {
                assert("Backslash"@[0] != "ArrowDown"@[0]);
            }
            assert("Backslash"@ != "Down"@) by {
                assert("Backslash"@.len() != "Down"@.len());
            }
            assert("Backslash"@ != "Minus"@) by {
                assert("Backslash"@.len() != "Minus"@.len());
            }
            assert("Backslash"@ != "Equal"@) by {
                assert("Backslash"@.len() != "Equal"@.len());
            }
            assert("Backslash"@ != "Comma"@) by {
                assert("Backslash"@.len() != "Comma"@.len());
            }
            assert("Backslash"@ != "Period"@) by {
                assert("Backslash"@.len() != "Period"@.len());
            }
            assert("Backslash"@ != "Slash"@) by {
                assert("Backslash"@.len() != "Slash"@.len());
            }
            assert("Backslash"@ != "Semicolon"@) by {
                assert("Backslash"@[0] != "Semicolon"@[0]);
            }
            assert("Backslash"@ != "Quote"@) by {
                assert("Backslash"@.len() != "Quote"@.len());
            }
            assert("Backslash"@ != "BracketLeft"@) by {
                assert("Backslash"@.len() != "BracketLeft"@.len());
            }
            assert("Backslash"@ != "BracketRight"@) by {
                assert("Backslash"@.len() != "BracketRight"@.len());
            }
            assert(key_of_name("Backslash"@) == Some(Key::Named(NamedKey::Backslash)));
        },
    }
}

proof fn lemma_letter_round_trip(c: char)
    requires
        is_upper(c),
    ensures
        key_of_name("Key"@ + seq![c]) == Some(Key::Letter(c)),
{
    reveal_strlit("Space");
    reveal_strlit("Escape");
    reveal_strlit("Enter");
    reveal_strlit("Backspace");
    reveal_strlit("Tab");
    reveal_strlit("ShiftLeft");
    reveal_strlit("ShiftRight");
    reveal_strlit("ControlLeft");
    reveal_strlit("AltLeft");
    reveal_strlit("ArrowLeft");
    reveal_strlit("ArrowRight");
    reveal_strlit("ArrowUp");
    reveal_strlit("ArrowDown");
    reveal_strlit("Minus");
    reveal_strlit("Equal");
    reveal_strlit("Comma");
    reveal_strlit("Period");
    reveal_strlit("Slash");
    reveal_strlit("Semicolon");
    reveal_strlit("Quote");
    reveal_strlit("BracketLeft");
    reveal_strlit("BracketRight");
    reveal_strlit("Backslash");
    reveal_strlit("Esc");
    reveal_strlit("Ctrl");
    reveal_strlit("Left");
    reveal_strlit("Right");
    reveal_strlit("Up");
    reveal_strlit("Down");
    reveal_strlit("Key");
    reveal_strlit("Digit");
    let s = "Key"@ + seq![c];
    assert(s.len() == 4);
    assert(s.take(3) =~= "Key"@);
    assert(s[3] == c);
    assert(s[0] == 'K');
}

proof fn lemma_digit_round_trip(c: char)
    requires
        is_digit(c),
    ensures
        key_of_name("Digit"@ + seq![c]) == Some(Key::Digit(c)),
{
    reveal_strlit("Space");
    reveal_strlit("Escape");
    reveal_strlit("Enter");
    reveal_strlit("Backspace");
    reveal_strlit("Tab");
    reveal_strlit("ShiftLeft");
    reveal_strlit("ShiftRight");
    reveal_strlit("ControlLeft");
    reveal_strlit("AltLeft");
    reveal_strlit("ArrowLeft");
    reveal_strlit("ArrowRight");
    reveal_strlit("ArrowUp");
    reveal_strlit("ArrowDown");
    reveal_strlit("Minus");
    reveal_strlit("Equal");
    reveal_strlit("Comma");
    reveal_strlit("Period");
    reveal_strlit("Slash");
    reveal_strlit("Semicolon");
    reveal_strlit("Quote");
    reveal_strlit("BracketLeft");
    reveal_strlit("BracketRight");
    reveal_strlit("Backslash");
    reveal_strlit("Esc");
    reveal_strlit("Ctrl");
    reveal_strlit("Left");
    reveal_strlit("Right");
    reveal_strlit("Up");
    reveal_strlit("Down");
    reveal_strlit("Key");
    reveal_strlit("Digit");
    let s = "Digit"@ + seq![c];
    assert(s.len() == 6);
    assert(s.take(5) =~= "Digit"@);
    assert(s[5] == c);
    assert(s[0] == 'D');
}

proof fn lemma_function_round_trip(n: u8)
    requires
        1 <= n <= 12,
    ensures
        key_of_name(key_name(Key::Function(n))) == Some(Key::Function(n)),
{
    reveal_strlit("Space");
    reveal_strlit("Escape");
    reveal_strlit("Enter");
    reveal_strlit("Backspace");
    reveal_strlit("Tab");
    reveal_strlit("ShiftLeft");
    reveal_strlit("ShiftRight");
    reveal_strlit("ControlLeft");
    reveal_strlit("AltLeft");
    reveal_strlit("ArrowLeft");
    reveal_strlit("ArrowRight");
    reveal_strlit("ArrowUp");
    reveal_strlit("ArrowDown");
    reveal_strlit("Minus");
    reveal_strlit("Equal");
    reveal_strlit("Comma");
    reveal_strlit("Period");
    reveal_strlit("Slash");
    reveal_strlit("Semicolon");
    reveal_strlit("Quote");
    reveal_strlit("BracketLeft");
    reveal_strlit("BracketRight");
    reveal_strlit("Backslash");
    reveal_strlit("Esc");
    reveal_strlit("Ctrl");
    reveal_strlit("Left");
    reveal_strlit("Right");
    reveal_strlit("Up");
    reveal_strlit("Down");
    reveal_strlit("Key");
    reveal_strlit("Digit");
    let s = key_name(Key::Function(n));
    assert(s[0] == 'F');
}

/// Law: the short names are aliases of the full key names, and each
/// resolves to the key it names.
pub proof fn law_key_aliases()
    ensures
        key_of_name("Esc"@) == key_of_name("Escape"@),
        key_of_name("Ctrl"@) == key_of_name("ControlLeft"@),
        key_of_name("Left"@) == key_of_name("ArrowLeft"@),
        key_of_name("Right"@) == key_of_name("ArrowRight"@),
        key_of_name("Up"@) == key_of_name("ArrowUp"@),
        key_of_name("Down"@) == key_of_name("ArrowDown"@),
        key_of_name("Esc"@) == Some(Key::Named(NamedKey::Escape)),
        key_of_name("Ctrl"@) == Some(Key::Named(NamedKey::ControlLeft)),
        key_of_name("Left"@) == Some(Key::Named(NamedKey::ArrowLeft)),
        key_of_name("Right"@) == Some(Key::Named(NamedKey::ArrowRight)),
        key_of_name("Up"@) == Some(Key::Named(NamedKey::ArrowUp)),
        key_of_name("Down"@) == Some(Key::Named(NamedKey::ArrowDown)),
{
    lemma_named_round_trip(NamedKey::Escape);
    lemma_named_round_trip(NamedKey::ControlLeft);
    lemma_named_round_trip(NamedKey::ArrowLeft);
    lemma_named_round_trip(NamedKey::ArrowRight);
    lemma_named_round_trip(NamedKey::ArrowUp);
    lemma_named_round_trip(NamedKey::ArrowDown);
    reveal_strlit("Space");
    reveal_strlit("Escape");
    reveal_strlit("Esc");
    reveal_strlit("Enter");
    reveal_strlit("Backspace");
    reveal_strlit("Tab");
    reveal_strlit("ShiftLeft");
    reveal_strlit("ShiftRight");
    reveal_strlit("ControlLeft");
    reveal_strlit("Ctrl");
    reveal_strlit("AltLeft");
    reveal_strlit("ArrowLeft");
    reveal_strlit("Left");
    reveal_strlit("ArrowRight");
    reveal_strlit("Right");
    reveal_strlit("ArrowUp");
    reveal_strlit("Up");
    reveal_strlit("ArrowDown");
    reveal_strlit("Down");
    reveal_strlit("Minus");
    reveal_strlit("Equal");
    reveal_strlit("Comma");
    reveal_strlit("Period");
    reveal_strlit("Slash");
    reveal_strlit("Semicolon");
    reveal_strlit("Quote");
    reveal_strlit("BracketLeft");
    reveal_strlit("BracketRight");
    reveal_strlit("Backslash");
    reveal_strlit("Key");
    reveal_strlit("Digit");
    assert("Esc"@ != "Space"@) by {
            assert("Esc"@.len() != "Space"@.len());
        }
    assert("Ctrl"@ != "Space"@) by {
            assert("Ctrl"@.len() != "Space"@.len());
        }
    assert("Ctrl"@ != "Escape"@) by {
            assert("Ctrl"@.len() != "Escape"@.len());
        }
    assert("Ctrl"@ != "Esc"@) by {
            assert("Ctrl"@.len() != "Esc"@.len());
        }
    assert("Ctrl"@ != "Enter"@) by {
            assert("Ctrl"@.len() != "Enter"@.len());
        }
    assert("Ctrl"@ != "Backspace"@) by {
            assert("Ctrl"@.len() != "Backspace"@.len());
        }
    assert("Ctrl"@ != "Tab"@) by {
            assert("Ctrl"@.len() != "Tab"@.len());
        }
    assert("Ctrl"@ != "ShiftLeft"@) by {
            assert("Ctrl"@.len() != "ShiftLeft"@.len());
        }
    assert("Ctrl"@ != "ShiftRight"@) by {
            assert("Ctrl"@.len() != "ShiftRight"@.len());
        }
    assert("Left"@ != "Space"@) by {
            assert("Left"@.len() != "Space"@.len());
        }
    assert("Left"@ != "Escape"@) by {
            assert("Left"@.len() != "Escape"@.len());
        }
    assert("Left"@ != "Esc"@) by {
            assert("Left"@.len() != "Esc"@.len());
        }
    assert("Left"@ != "Enter"@) by {
            assert("Left"@.len() != "Enter"@.len());
        }
    assert("Left"@ != "Backspace"@) by {
            assert("Left"@.len() != "Backspace"@.len());
        }
    assert("Left"@ != "Tab"@) by {
            assert("Left"@.len() != "Tab"@.len());
        }
    assert("Left"@ != "ShiftLeft"@) by {
            assert("Left"@.len() != "ShiftLeft"@.len());
        }
    assert("Left"@ != "ShiftRight"@) by {
            assert("Left"@.len() != "ShiftRight"@.len());
        }
    assert("Left"@ != "ControlLeft"@) by {
            assert("Left"@.len() != "ControlLeft"@.len());
        }
    assert("Left"@ != "Ctrl"@) by {
            assert("Left"@[0] != "Ctrl"@[0]);
        }
    assert("Left"@ != "AltLeft"@) by {
            assert("Left"@.len() != "AltLeft"@.len());
        }
    assert("Right"@ != "Space"@) by {
            assert("Right"@[0] != "Space"@[0]);
        }
    assert("Right"@ != "Escape"@) by {
            assert("Right"@.len() != "Escape"@.len());
        }
    assert("Right"@ != "Esc"@) by {
            assert("Right"@.len() != "Esc"@.len());
        }
    assert("Right"@ != "Enter"@) by {
            assert("Right"@[0] != "Enter"@[0]);
        }
    assert("Right"@ != "Backspace"@) by {
            assert("Right"@.len() != "Backspace"@.len());
        }
    assert("Right"@ != "Tab"@) by {
            assert("Right"@.len() != "Tab"@.len());
        }
    assert("Right"@ != "ShiftLeft"@) by {
            assert("Right"@.len() != "ShiftLeft"@.len());
        }
    assert("Right"@ != "ShiftRight"@) by {
            assert("Right"@.len() != "ShiftRight"@.len());
        }
    assert("Right"@ != "ControlLeft"@) by {
            assert("Right"@.len() != "ControlLeft"@.len());
        }
    assert("Right"@ != "Ctrl"@) by {
            assert("Right"@.len() != "Ctrl"@.len());
        }
    assert("Right"@ != "AltLeft"@) by {
            assert("Right"@.len() != "AltLeft"@.len());
        }
    assert("Right"@ != "ArrowLeft"@) by {
            assert("Right"@.len() != "ArrowLeft"@.len());
        }
    assert("Right"@ != "Left"@) by {
            assert("Right"@.len() != "Left"@.len());
        }
    assert("Up"@ != "Space"@) by {
            assert("Up"@.len() != "Space"@.len());
        }
    assert("Up"@ != "Escape"@) by {
            assert("Up"@.len() != "Escape"@.len());
        }
    assert("Up"@ != "Esc"@) by {
            assert("Up"@.len() != "Esc"@.len());
        }
    assert("Up"@ != "Enter"@) by {
            assert("Up"@.len() != "Enter"@.len());
        }
    assert("Up"@ != "Backspace"@) by {
            assert("Up"@.len() != "Backspace"@.len());
        }
    assert("Up"@ != "Tab"@) by {
            assert("Up"@.len() != "Tab"@.len());
        }
    assert("Up"@ != "ShiftLeft"@) by {
            assert("Up"@.len() != "ShiftLeft"@.len());
        }
    assert("Up"@ != "ShiftRight"@) by {
            assert("Up"@.len() != "ShiftRight"@.len());
        }
    assert("Up"@ != "ControlLeft"@) by {
            assert("Up"@.len() != "ControlLeft"@.len());
        }
    assert("Up"@ != "Ctrl"@) by {
            assert("Up"@.len() != "Ctrl"@.len());
        }
    assert("Up"@ != "AltLeft"@) by {
            assert("Up"@.len() != "AltLeft"@.len());
        }
    assert("Up"@ != "ArrowLeft"@) by {
            assert("Up"@.len() != "ArrowLeft"@.len());
        }
    assert("Up"@ != "Left"@) by {
            assert("Up"@.len() != "Left"@.len());
        }
    assert("Up"@ != "ArrowRight"@) by {
            assert("Up"@.len() != "ArrowRight"@.len());
        }
    assert("Up"@ != "Right"@) by {
            assert("Up"@.len() != "Right"@.len());
        }
    assert("Down"@ != "Space"@) by {
            assert("Down"@.len() != "Space"@.len());
        }
    assert("Down"@ != "Escape"@) by {
            assert("Down"@.len() != "Escape"@.len());
        }
    assert("Down"@ != "Esc"@) by {
            assert("Down"@.len() != "Esc"@.len());
        }
    assert("Down"@ != "Enter"@) by {
            assert("Down"@.len() != "Enter"@.len());
        }
    assert("Down"@ != "Backspace"@) by {
            assert("Down"@.len() != "Backspace"@.len());
        }
    assert("Down"@ != "Tab"@) by {
            assert("Down"@.len() != "Tab"@.len());
        }
    assert("Down"@ != "ShiftLeft"@) by {
            assert("Down"@.len() != "ShiftLeft"@.len());
        }
    assert("Down"@ != "ShiftRight"@) by {
            assert("Down"@.len() != "ShiftRight"@.len());
        }
    assert("Down"@ != "ControlLeft"@) by {
            assert("Down"@.len() != "ControlLeft"@.len());
        }
    assert("Down"@ != "Ctrl"@) by {
            assert("Down"@[0] != "Ctrl"@[0]);
        }
    assert("Down"@ != "AltLeft"@) by {
            assert("Down"@.len() != "AltLeft"@.len());
        }
    assert("Down"@ != "ArrowLeft"@) by {
            assert("Down"@.len() != "ArrowLeft"@.len());
        }
    assert("Down"@ != "Left"@) by {
            assert("Down"@[0] != "Left"@[0]);
        }
    assert("Down"@ != "ArrowRight"@) by {
            assert("Down"@.len() != "ArrowRight"@.len());
        }
    assert("Down"@ != "Right"@) by {
            assert("Down"@.len() != "Right"@.len());
        }
    assert("Down"@ != "ArrowUp"@) by {
            assert("Down"@.len() != "ArrowUp"@.len());
        }
    assert("Down"@ != "Up"@) by {
            assert("Down"@.len() != "Up"@.len());
        }
    lemma_named_round_trip(NamedKey::Escape);
    lemma_named_round_trip(NamedKey::ControlLeft);
    lemma_named_round_trip(NamedKey::ArrowLeft);
    lemma_named_round_trip(NamedKey::ArrowRight);
    lemma_named_round_trip(NamedKey::ArrowUp);
    lemma_named_round_trip(NamedKey::ArrowDown);
}

/// `s` begins with `p`.
pub open spec fn has_prefix(s: Seq<char>, p: Seq<char>) -> bool {
    s.len() >= p.len() && s.take(p.len() as int) == p
}

fn starts_with(s: &str, p: &str) -> (r: bool)
    ensures
        r == has_prefix(s@, p@),
{
    let n = s.unicode_len();
    let m = p.unicode_len();
    if n < m {
        return false;
    }
    let mut i: usize = 0;
    while i < m
        invariant
            n == s@.len(),
            m == p@.len(),
            m <= n,
            i <= m,
            forall|j: int| 0 <= j < i ==> s@[j] == p@[j],
        decreases m - i,
    {
        if s.get_char(i) != p.get_char(i) {
            proof {
                assert(s@.take(m as int)[i as int] != p@[i as int]);
            }
            return false;
        }
        i += 1;
    }
    proof {
        assert(s@.take(m as int) =~= p@);
    }
    true
}

/// Resolve a key name: the named keys (with the aliases `Esc`, `Ctrl`,
/// `Left`, `Right`, `Up`, `Down`), `KeyA`..`KeyZ`, `Digit0`..`Digit9` and
/// `F1`..`F12`.
pub fn key_code(name: &str) -> (r: Option<Key>)
    ensures
        r == key_of_name(name@),
{
    if str_eq(name, "Space") {
        Some(Key::Named(NamedKey::Space))
    } else if str_eq(name, "Escape") || str_eq(name, "Esc") {
        Some(Key::Named(NamedKey::Escape))
    } else if str_eq(name, "Enter") {
        Some(Key::Named(NamedKey::Enter))
    } else if str_eq(name, "Backspace") {
        Some(Key::Named(NamedKey::Backspace))
    } else if str_eq(name, "Tab") {
        Some(Key::Named(NamedKey::Tab))
    } else if str_eq(name, "ShiftLeft") {
        Some(Key::Named(NamedKey::ShiftLeft))
    } else if str_eq(name, "ShiftRight") {
        Some(Key::Named(NamedKey::ShiftRight))
    } else if str_eq(name, "ControlLeft") || str_eq(name, "Ctrl") {
        Some(Key::Named(NamedKey::ControlLeft))
    } else if str_eq(name, "AltLeft") {
        Some(Key::Named(NamedKey::AltLeft))
    } else if str_eq(name, "ArrowLeft") || str_eq(name, "Left") {
        Some(Key::Named(NamedKey::ArrowLeft))
    } else if str_eq(name, "ArrowRight") || str_eq(name, "Right") {
        Some(Key::Named(NamedKey::ArrowRight))
    } else if str_eq(name, "ArrowUp") || str_eq(name, "Up") {
        Some(Key::Named(NamedKey::ArrowUp))
    } else if str_eq(name, "ArrowDown") || str_eq(name, "Down") {
        Some(Key::Named(NamedKey::ArrowDown))
    } else if str_eq(name, "Minus") {
        Some(Key::Named(NamedKey::Minus))
    } else if str_eq(name, "Equal") {
        Some(Key::Named(NamedKey::Equal))
    } else if str_eq(name, "Comma") {
        Some(Key::Named(NamedKey::Comma))
    } else if str_eq(name, "Period") {
        Some(Key::Named(NamedKey::Period))
    } else if str_eq(name, "Slash") {
        Some(Key::Named(NamedKey::Slash))
    } else if str_eq(name, "Semicolon") {
        Some(Key::Named(NamedKey::Semicolon))
    } else if str_eq(name, "Quote") {
        Some(Key::Named(NamedKey::Quote))
    } else if str_eq(name, "BracketLeft") {
        Some(Key::Named(NamedKey::BracketLeft))
    } else if str_eq(name, "BracketRight") {
        Some(Key::Named(NamedKey::BracketRight))
    } else if str_eq(name, "Backslash") {
        Some(Key::Named(NamedKey::Backslash))
    } else {
        let n = name.unicode_len();
        if n == 4 && starts_with(name, "Key") {
            proof {
                reveal_strlit("Key");
            }
            let c = name.get_char(3);
            if 'A' <= c && c <= 'Z' {
                Some(Key::Letter(c))
            } else {
                None
            }
        } else if n == 6 && starts_with(name, "Digit") {
            proof {
                reveal_strlit("Digit");
            }
            let d = name.get_char(5);
            if '0' <= d && d <= '9' {
                Some(Key::Digit(d))
            } else {
                None
            }
        } else if n == 2 && name.get_char(0) == 'F' {
            let f = name.get_char(1);
            if '1' <= f && f <= '9' {
                Some(Key::Function((f as u32 - '0' as u32) as u8))
            } else {
                None
            }
        } else if n == 3 && name.get_char(0) == 'F' && name.get_char(1) == '1' {
            let f = name.get_char(2);
            if '0' <= f && f <= '2' {
                Some(Key::Function((10 + (f as u32 - '0' as u32)) as u8))
            } else {
                None
            }
        } else {
            None
        }
    }
}

/// The mouse button a name refers to, if any.
pub open spec fn button_of_name(s: Seq<char>) -> Option<MouseButton> {
    if s == "Left"@ {
        Some(MouseButton::Left)
    } else if s == "Right"@ {
        Some(MouseButton::Right)
    } else if s == "Middle"@ {
        Some(MouseButton::Middle)
    } else {
        None
    }
}

pub fn mouse_button(name: &str) -> (r: Option<MouseButton>)
    ensures
        r == button_of_name(name@),
{
    if str_eq(name, "Left") {
        Some(MouseButton::Left)
    } else if str_eq(name, "Right") {
        Some(MouseButton::Right)
    } else if str_eq(name, "Middle") {
        Some(MouseButton::Middle)
    } else {
        None
    }
}

/// A gamepad button.
#[derive(Clone, Copy, Debug, PartialEq, Eq, Structural)]
pub enum PadButton {
    South,
    East,
    North,
    West,
    C,
    Z,
    LeftTrigger,
    LeftTrigger2,
    RightTrigger,
    RightTrigger2,
    Select,
    Start,
    Mode,
    LeftThumb,
    RightThumb,
    DPadUp,
    DPadDown,
    DPadLeft,
    DPadRight,
    Unknown,
}

/// The name bindings use for a gamepad button (`C`, `Z` and unknown
/// buttons have none).
pub open spec fn pad_name(b: PadButton) -> Option<Seq<char>> {
    match b {
        PadButton::South => Some("South"@),
        PadButton::East => Some("East"@),
        PadButton::North => Some("North"@),
        PadButton::West => Some("West"@),
        PadButton::Start => Some("Start"@),
        PadButton::Select => Some("Select"@),
        PadButton::Mode => Some("Mode"@),
        PadButton::LeftThumb => Some("LeftThumb"@),
        PadButton::RightThumb => Some("RightThumb"@),
        PadButton::DPadUp => Some("DPadUp"@),
        PadButton::DPadDown => Some("DPadDown"@),
        PadButton::DPadLeft => Some("DPadLeft"@),
        PadButton::DPadRight => Some("DPadRight"@),
        PadButton::LeftTrigger => Some("LeftTrigger"@),
        PadButton::RightTrigger => Some("RightTrigger"@),
        PadButton::LeftTrigger2 => Some("LeftTrigger2"@),
        PadButton::RightTrigger2 => Some("RightTrigger2"@),
        _ => None,
    }
}

pub fn pad_button_name(b: PadButton) -> (r: Option<&'static str>)
    ensures
        match r {
            Some(s) => pad_name(b) == Some(s@),
            None => pad_name(b) is None,
        },
{
    match b {
        PadButton::South => Some("South"),
        PadButton::East => Some("East"),
        PadButton::North => Some("North"),
        PadButton::West => Some("West"),
        PadButton::Start => Some("Start"),
        PadButton::Select => Some("Select"),
        PadButton::Mode => Some("Mode"),
        PadButton::LeftThumb => Some("LeftThumb"),
        PadButton::RightThumb => Some("RightThumb"),
        PadButton::DPadUp => Some("DPadUp"),
        PadButton::DPadDown => Some("DPadDown"),
        PadButton::DPadLeft => Some("DPadLeft"),
        PadButton::DPadRight => Some("DPadRight"),
        PadButton::LeftTrigger => Some("LeftTrigger"),
        PadButton::RightTrigger => Some("RightTrigger"),
        PadButton::LeftTrigger2 => Some("LeftTrigger2"),
        PadButton::RightTrigger2 => Some("RightTrigger2"),
        _ => None,
    }
}

/// `s` with every leading copy of `p` removed.
pub open spec fn trim_prefixes(s: Seq<char>, p: Seq<char>) -> Seq<char>
    decreases s.len(),
{
    if p.len() > 0 && has_prefix(s, p) {
        trim_prefixes(s.skip(p.len() as int), p)
    } else {
        s
    }
}

fn trim_start_matches<'a>(s: &'a str, p: &str) -> (r: &'a str)
    requires
        p@.len() > 0,
    ensures
        r@ == trim_prefixes(s@, p@),
{
    let m = p.unicode_len();
    let mut cur: &str = s;
    while starts_with(cur, p)
        invariant
            m == p@.len(),
            m > 0,
            trim_prefixes(cur@, p@) == trim_prefixes(s@, p@),
        decreases cur@.len(),
    {
        let n = cur.unicode_len();
        cur = cur.substring_char(m, n);
    }
    cur
}

/// Whether a stick direction name is active for a stick.
pub open spec fn stick_dir_active(name: Seq<char>, d: StickDirs) -> bool {
    let t = trim_prefixes(trim_prefixes(name, "LeftStick"@), "RightStick"@);
    if t == "Left"@ {
        d.left
    } else if t == "Right"@ {
        d.right
    } else if t == "Up"@ {
        d.up
    } else if t == "Down"@ {
        d.down
    } else {
        false
    }
}

fn stick_active(name: &str, d: StickDirs) -> (r: bool)
    ensures
        r == stick_dir_active(name@, d),
{
    proof {
        reveal_strlit("LeftStick");
        reveal_strlit("RightStick");
    }
    let t = trim_start_matches(trim_start_matches(name, "LeftStick"), "RightStick");
    if str_eq(t, "Left") {
        d.left
    } else if str_eq(t, "Right") {
        d.right
    } else if str_eq(t, "Up") {
        d.up
    } else if str_eq(t, "Down") {
        d.down
    } else {
        false
    }
}

// ---------------------------------------------------------------------------
// Small sets
// ---------------------------------------------------------------------------

/// Exact equality of copyable input names.
pub trait SameAs: Sized + Copy {
    fn same_as(&self, other: &Self) -> (r: bool)
        ensures
            r == (*self == *other),
    ;
}

impl SameAs for Key {
    fn same_as(&self, other: &Self) -> (r: bool) {
        *self == *other
    }
}

impl SameAs for MouseButton {
    fn same_as(&self, other: &Self) -> (r: bool) {
        *self == *other
    }
}

fn set_has<T: SameAs>(v: &Vec<T>, x: T) -> (r: bool)
    ensures
        r == v@.contains(x),
{
    let mut i: usize = 0;
    while i < v.len()
        invariant
            i <= v@.len(),
            forall|j: int| 0 <= j < i ==> v@[j] != x,
        decreases v@.len() - i,
    {
        if v[i].same_as(&x) {
            return true;
        }
        i += 1;
    }
    false
}

fn set_insert<T: SameAs>(v: &mut Vec<T>, x: T)
    ensures
        final(v)@.to_set() == old(v)@.to_set().insert(x),
{
    if !set_has(v, x) {
        let ghost s0 = v@;
        v.push(x);
        proof {
            assert(v@.to_set() =~= s0.to_set().insert(x)) by {
                assert forall|y: T| #[trigger] v@.contains(y) <==> (s0.contains(y) || y == x) by {
                    if v@.contains(y) {
                        let i = choose|i: int| 0 <= i < v@.len() && v@[i] == y;
                        if i < s0.len() {
                            assert(s0[i] == y);
                        }
                    }
                    if s0.contains(y) {
                        let i = choose|i: int| 0 <= i < s0.len() && s0[i] == y;
                        assert(v@[i] == y);
                    }
                    if y == x {
                        assert(v@[s0.len() as int] == x);
                    }
                }
            }
        }
    } else {
        proof {
            assert(v@.to_set() =~= v@.to_set().insert(x));
        }
    }
}

fn set_remove<T: SameAs>(v: &mut Vec<T>, x: T)
    ensures
        final(v)@.to_set() == old(v)@.to_set().remove(x),
{
    let mut out: Vec<T> = Vec::new();
    let mut i: usize = 0;
    while i < v.len()
        invariant
            i <= v@.len(),
            forall|y: T| #[trigger]
                out@.contains(y) <==> (y != x && exists|j: int| 0 <= j < i && v@[j] == y),
        decreases v@.len() - i,
    {
        let y = v[i];
        if !y.same_as(&x) {
            let ghost o0 = out@;
            out.push(y);
            proof {
                assert forall|z: T| #[trigger]
                    out@.contains(z) <==> (z != x && exists|j: int| 0 <= j < i + 1 && v@[j] == z) by {
                    if out@.contains(z) {
                        let k = choose|k: int| 0 <= k < out@.len() && out@[k] == z;
                        if k < o0.len() {
                            assert(o0[k] == z);
                            assert(o0.contains(z));
                        } else {
                            assert(v@[i as int] == z);
                        }
                    }
                    if z != x && exists|j: int| 0 <= j < i + 1 && v@[j] == z {
                        let j = choose|j: int| 0 <= j < i + 1 && v@[j] == z;
                        if j < i {
                            assert(o0.contains(z));
                            let k = choose|k: int| 0 <= k < o0.len() && o0[k] == z;
                            assert(out@[k] == z);
                        } else {
                            assert(out@[o0.len() as int] == z);
                        }
                    }
                }
            }
        } else {
            proof {
                assert forall|z: T| #[trigger]
                    out@.contains(z) <==> (z != x && exists|j: int| 0 <= j < i + 1 && v@[j] == z) by {
                    if z != x && exists|j: int| 0 <= j < i + 1 && v@[j] == z {
                        let j = choose|j: int| 0 <= j < i + 1 && v@[j] == z;
                        assert(j < i);
                    }
                }
            }
        }
        i += 1;
    }
    proof {
        assert(out@.to_set() =~= v@.to_set().remove(x)) by {
            assert forall|z: T| #[trigger] out@.contains(z) <==> (v@.contains(z) && z != x) by {
                if v@.contains(z) && z != x {
                    let j = choose|j: int| 0 <= j < v@.len() && v@[j] == z;
                }
            }
        }
    }
    *v = out;
}

fn names_has(v: &Vec<String>, x: &str) -> (r: bool)
    ensures
        r == texts(v@).contains(x@),
{
    let mut i: usize = 0;
    while i < v.len()
        invariant
            i <= v@.len(),
            forall|j: int| 0 <= j < i ==> texts(v@)[j] != x@,
        decreases v@.len() - i,
    {
        assert(texts(v@)[i as int] == v@[i as int]@);
        if str_eq(v[i].as_str(), x) {
            return true;
        }
        i += 1;
    }
    false
}

fn names_insert(v: &mut Vec<String>, x: &str)
    ensures
        texts(final(v)@).to_set() == texts(old(v)@).to_set().insert(x@),
{
    if !names_has(v, x) {
        let ghost s0 = texts(v@);
        v.push(x.to_owned());
        proof {
            assert(texts(v@) =~= s0.push(x@));
            assert(texts(v@).to_set() =~= s0.to_set().insert(x@)) by {
                assert forall|y: Seq<char>| #[trigger] texts(v@).contains(y) <==> (s0.contains(y) || y
                    == x@) by {
                    let t = texts(v@);
                    if t.contains(y) {
                        let i = choose|i: int| 0 <= i < t.len() && t[i] == y;
                        if i < s0.len() {
                            assert(s0[i] == y);
                        }
                    }
                    if s0.contains(y) {
                        let i = choose|i: int| 0 <= i < s0.len() && s0[i] == y;
                        assert(t[i] == y);
                    }
                    if y == x@ {
                        assert(t[s0.len() as int] == y);
                    }
                }
            }
        }
    } else {
        proof {
            assert(texts(v@).to_set() =~= texts(v@).to_set().insert(x@));
        }
    }
}

fn names_remove(v: &mut Vec<String>, x: &str)
    ensures
        texts(final(v)@).to_set() == texts(old(v)@).to_set().remove(x@),
{
    let mut out: Vec<String> = Vec::new();
    let mut i: usize = 0;
    while i < v.len()
        invariant
            i <= v@.len(),
            forall|y: Seq<char>| #[trigger]
                texts(out@).contains(y) <==> (y != x@ && exists|j: int|
                    0 <= j < i && texts(v@)[j] == y),
        decreases v@.len() - i,
    {
        assert(texts(v@)[i as int] == v@[i as int]@);
        if !str_eq(v[i].as_str(), x) {
            let ghost o0 = texts(out@);
            out.push(v[i].clone());
            proof {
                let t = texts(out@);
                assert(t =~= o0.push(texts(v@)[i as int]));
                assert forall|z: Seq<char>| #[trigger]
                    t.contains(z) <==> (z != x@ && exists|j: int| 0 <= j < i + 1 && texts(v@)[j] == z) by {
                    if t.contains(z) {
                        let k = choose|k: int| 0 <= k < t.len() && t[k] == z;
                        if k < o0.len() {
                            assert(o0[k] == z);
                            assert(o0.contains(z));
                        } else {
                            assert(texts(v@)[i as int] == z);
                        }
                    }
                    if z != x@ && exists|j: int| 0 <= j < i + 1 && texts(v@)[j] == z {
                        let j = choose|j: int| 0 <= j < i + 1 && texts(v@)[j] == z;
                        if j < i {
                            assert(o0.contains(z));
                            let k = choose|k: int| 0 <= k < o0.len() && o0[k] == z;
                            assert(t[k] == z);
                        } else {
                            assert(t[o0.len() as int] == z);
                        }
                    }
                }
            }
        } else {
            proof {
                assert forall|z: Seq<char>| #[trigger]
                    texts(out@).contains(z) <==> (z != x@ && exists|j: int|
                        0 <= j < i + 1 && texts(v@)[j] == z) by {
                    if z != x@ && exists|j: int| 0 <= j < i + 1 && texts(v@)[j] == z {
                        let j = choose|j: int| 0 <= j < i + 1 && texts(v@)[j] == z;
                        assert(j < i);
                    }
                }
            }
        }
        i += 1;
    }
    proof {
        assert(texts(out@).to_set() =~= texts(v@).to_set().remove(x@)) by {
            assert forall|z: Seq<char>| #[trigger] texts(out@).contains(z) <==> (texts(v@).contains(z)
                && z != x@) by {
                if texts(v@).contains(z) && z != x@ {
                    let j = choose|j: int| 0 <= j < texts(v@).len() && texts(v@)[j] == z;
                }
            }
        }
    }
    *v = out;
}

// ---------------------------------------------------------------------------
// Input state
// ---------------------------------------------------------------------------

/// Edge state of a family of buttons: (held, pressed this frame, released
/// this frame).
pub type Edges<T> = (Set<T>, Set<T>, Set<T>);

/// A button goes down (`down`) or up: going down marks it pressed unless it
/// was already held (key repeat); going up marks it released.
pub open spec fn key_event<T>(e: Edges<T>, k: T, down: bool) -> Edges<T> {
    if down {
        (e.0.insert(k), if e.0.contains(k) { e.1 } else { e.1.insert(k) }, e.2)
    } else {
        (e.0.remove(k), e.1, e.2.insert(k))
    }
}

/// A mouse button goes down or up: every press is an edge.
pub open spec fn button_event<T>(e: Edges<T>, k: T, down: bool) -> Edges<T> {
    if down {
        (e.0.insert(k), e.1.insert(k), e.2)
    } else {
        (e.0.remove(k), e.1, e.2.insert(k))
    }
}

/// End of frame: edges are cleared, held buttons stay held.
pub open spec fn frame_end<T>(e: Edges<T>) -> Edges<T> {
    (e.0, Set::empty(), Set::empty())
}

/// Full input state for one frame window.
pub struct Input {
    keys_held: Vec<Key>,
    keys_pressed: Vec<Key>,
    keys_released: Vec<Key>,
    mouse_held: Vec<MouseButton>,
    mouse_pressed: Vec<MouseButton>,
    mouse_released: Vec<MouseButton>,
    pad_held: Vec<String>,
    pad_pressed: Vec<String>,
    /// Directions the left stick is pushed past the threshold.
    pub pad_left: StickDirs,
    /// Directions the right stick is pushed past the threshold.
    pub pad_right: StickDirs,
    actions: Vec<(String, Vec<Binding>)>,
    pad_available: bool,
}

/// The bindings of the first entry named `name`.
pub open spec fn bindings_named(actions: Seq<(String, Vec<Binding>)>, name: Seq<char>) -> Option<
    Seq<Binding>,
>
    decreases actions.len(),
{
    if actions.len() == 0 {
        None
    } else if actions[0].0@ == name {
        Some(actions[0].1@)
    } else {
        bindings_named(actions.drop_first(), name)
    }
}

impl Default for Input {
    /// Same as [`Input::new`].
    fn default() -> (r: Self)
        ensures
            r.keys() == (Set::<Key>::empty(), Set::<Key>::empty(), Set::<Key>::empty()),
            r.buttons() == (Set::<MouseButton>::empty(), Set::<MouseButton>::empty(), Set::<
                MouseButton,
            >::empty()),
            r.pads() == (Set::<Seq<char>>::empty(), Set::<Seq<char>>::empty()),
            r.sticks() == (centered(), centered()),
            forall|n: Seq<char>| #[trigger] r.action_bindings(n) is None,
            !r.connected(),
    {
        Input::new()
    }
}

impl Input {
    pub closed spec fn keys(&self) -> Edges<Key> {
        (self.keys_held@.to_set(), self.keys_pressed@.to_set(), self.keys_released@.to_set())
    }

    pub closed spec fn buttons(&self) -> Edges<MouseButton> {
        (self.mouse_held@.to_set(), self.mouse_pressed@.to_set(), self.mouse_released@.to_set())
    }

    /// Gamepad buttons held and pressed this frame, by name.
    pub closed spec fn pads(&self) -> (Set<Seq<char>>, Set<Seq<char>>) {
        (texts(self.pad_held@).to_set(), texts(self.pad_pressed@).to_set())
    }

    pub closed spec fn action_bindings(&self, name: Seq<char>) -> Option<Seq<Binding>> {
        bindings_named(self.actions@, name)
    }

    /// (left, right) stick directions.
    pub closed spec fn sticks(&self) -> (StickDirs, StickDirs) {
        (self.pad_left, self.pad_right)
    }

    pub closed spec fn connected(&self) -> bool {
        self.pad_available
    }

    pub open spec fn key_held_spec(&self, name: Seq<char>) -> bool {
        match key_of_name(name) {
            Some(k) => self.keys().0.contains(k),
            None => false,
        }
    }

    pub open spec fn key_pressed_spec(&self, name: Seq<char>) -> bool {
        match key_of_name(name) {
            Some(k) => self.keys().1.contains(k),
            None => false,
        }
    }

    pub open spec fn key_released_spec(&self, name: Seq<char>) -> bool {
        match key_of_name(name) {
            Some(k) => self.keys().2.contains(k),
            None => false,
        }
    }

    pub open spec fn binding_held_spec(&self, b: Binding) -> bool {
        match b {
            Binding::Key(k) => self.key_held_spec(k@),
            Binding::Mouse(m) => match button_of_name(m@) {
                Some(bt) => self.buttons().0.contains(bt),
                None => false,
            },
            Binding::Pad(p) => self.pads().0.contains(p@),
            Binding::Stick(s) => stick_dir_active(s@, self.sticks().0) || stick_dir_active(
                s@,
                self.sticks().1,
            ),
        }
    }

    /// Sticks track no edges.
    pub open spec fn binding_pressed_spec(&self, b: Binding) -> bool {
        match b {
            Binding::Key(k) => self.key_pressed_spec(k@),
            Binding::Mouse(m) => match button_of_name(m@) {
                Some(bt) => self.buttons().1.contains(bt),
                None => false,
            },
            Binding::Pad(p) => self.pads().1.contains(p@),
            Binding::Stick(_) => false,
        }
    }

    /// Pads and sticks track no release edges.
    pub open spec fn binding_released_spec(&self, b: Binding) -> bool {
        match b {
            Binding::Key(k) => self.key_released_spec(k@),
            Binding::Mouse(m) => match button_of_name(m@) {
                Some(bt) => self.buttons().2.contains(bt),
                None => false,
            },
            _ => false,
        }
    }

    /// Nothing held, no edges, no actions, no gamepad.
    pub fn new() -> (r: Self)
        ensures
            r.keys() == (Set::<Key>::empty(), Set::<Key>::empty(), Set::<Key>::empty()),
            r.buttons() == (Set::<MouseButton>::empty(), Set::<MouseButton>::empty(), Set::<
                MouseButton,
            >::empty()),
            r.pads() == (Set::<Seq<char>>::empty(), Set::<Seq<char>>::empty()),
            r.sticks() == (centered(), centered()),
            forall|n: Seq<char>| #[trigger] r.action_bindings(n) is None,
            !r.connected(),
    {
        let r = Input {
            keys_held: Vec::new(),
            keys_pressed: Vec::new(),
            keys_released: Vec::new(),
            mouse_held: Vec::new(),
            mouse_pressed: Vec::new(),
            mouse_released: Vec::new(),
            pad_held: Vec::new(),
            pad_pressed: Vec::new(),
            pad_left: StickDirs { left: false, right: false, up: false, down: false },
            pad_right: StickDirs { left: false, right: false, up: false, down: false },
            actions: Vec::new(),
            pad_available: false,
        };
        proof {
            assert(r.keys_held@.to_set() =~= Set::<Key>::empty());
            assert(r.mouse_held@.to_set() =~= Set::<MouseButton>::empty());
            assert(texts(r.pad_held@).to_set() =~= Set::<Seq<char>>::empty());
        }
        r
    }

    /// Install named action bindings (from `project.ron`); a name bound
    /// twice keeps its first bindings.
    pub fn set_actions(&mut self, actions: Vec<(String, Vec<Binding>)>)
        ensures
            forall|n: Seq<char>| #[trigger]
                final(self).action_bindings(n) == bindings_named(actions@, n),
            final(self).keys() == old(self).keys(),
            final(self).buttons() == old(self).buttons(),
            final(self).pads() == old(self).pads(),
    {
        self.actions = actions;
    }

    /// Clear all per-frame edges (pressed/released sets). Call after every
    /// consumer has read this frame's state (i.e. at frame end).
    pub fn end_frame(&mut self)
        ensures
            final(self).keys() == frame_end(old(self).keys()),
            final(self).buttons() == frame_end(old(self).buttons()),
            final(self).pads() == (old(self).pads().0, Set::<Seq<char>>::empty()),
            final(self).sticks() == old(self).sticks(),
            forall|n: Seq<char>| #[trigger]
                final(self).action_bindings(n) == old(self).action_bindings(n),
            final(self).connected() == old(self).connected(),
    {
        self.keys_pressed = Vec::new();
        self.keys_released = Vec::new();
        self.mouse_pressed = Vec::new();
        self.mouse_released = Vec::new();
        self.pad_pressed = Vec::new();
        proof {
            assert(self.keys_pressed@.to_set() =~= Set::<Key>::empty());
            assert(self.keys_released@.to_set() =~= Set::<Key>::empty());
            assert(self.mouse_pressed@.to_set() =~= Set::<MouseButton>::empty());
            assert(self.mouse_released@.to_set() =~= Set::<MouseButton>::empty());
            assert(texts(self.pad_pressed@).to_set() =~= Set::<Seq<char>>::empty());
        }
    }

    /// Drop all held state (window lost focus) so keys don't stick, then
    /// end the frame.
    pub fn blur(&mut self)
        ensures
            final(self).keys() == (Set::<Key>::empty(), Set::<Key>::empty(), Set::<Key>::empty()),
            final(self).buttons() == (Set::<MouseButton>::empty(), Set::<MouseButton>::empty(), Set::<
                MouseButton,
            >::empty()),
            final(self).pads() == (Set::<Seq<char>>::empty(), Set::<Seq<char>>::empty()),
            final(self).sticks() == (centered(), centered()),
            forall|n: Seq<char>| #[trigger]
                final(self).action_bindings(n) == old(self).action_bindings(n),
            final(self).connected() == old(self).connected(),
    {
        self.keys_held = Vec::new();
        self.mouse_held = Vec::new();
        self.pad_held = Vec::new();
        self.pad_left = StickDirs { left: false, right: false, up: false, down: false };
        self.pad_right = StickDirs { left: false, right: false, up: false, down: false };
        self.end_frame();
        proof {
            assert(self.keys_held@.to_set() =~= Set::<Key>::empty());
            assert(self.mouse_held@.to_set() =~= Set::<MouseButton>::empty());
            assert(texts(self.pad_held@).to_set() =~= Set::<Seq<char>>::empty());
        }
    }

    /// A key went down (`down`) or up.
    pub fn on_key(&mut self, code: Key, down: bool)
        ensures
            final(self).keys() == key_event(old(self).keys(), code, down),
            final(self).buttons() == old(self).buttons(),
            final(self).pads() == old(self).pads(),
            final(self).sticks() == old(self).sticks(),
            forall|n: Seq<char>| #[trigger]
                final(self).action_bindings(n) == old(self).action_bindings(n),
            final(self).connected() == old(self).connected(),
    {
        if down {
            if !set_has(&self.keys_held, code) {
                set_insert(&mut self.keys_pressed, code);
            }
            set_insert(&mut self.keys_held, code);
        } else {
            set_insert(&mut self.keys_released, code);
            set_remove(&mut self.keys_held, code);
        }
    }

    /// A mouse button went down (`down`) or up.
    pub fn on_mouse_button(&mut self, button: MouseButton, down: bool)
        ensures
            final(self).buttons() == button_event(old(self).buttons(), button, down),
            final(self).keys() == old(self).keys(),
            final(self).pads() == old(self).pads(),
            final(self).sticks() == old(self).sticks(),
            forall|n: Seq<char>| #[trigger]
                final(self).action_bindings(n) == old(self).action_bindings(n),
            final(self).connected() == old(self).connected(),
    {
        if down {
            set_insert(&mut self.mouse_pressed, button);
            set_insert(&mut self.mouse_held, button);
        } else {
            set_insert(&mut self.mouse_released, button);
            set_remove(&mut self.mouse_held, button);
        }
    }

    /// A gamepad button (by name) was pressed or repeated (`down`), or
    /// released.
    pub fn on_pad_button(&mut self, name: &str, down: bool)
        ensures
            final(self).pads() == if down {
                (old(self).pads().0.insert(name@), old(self).pads().1.insert(name@))
            } else {
                (old(self).pads().0.remove(name@), old(self).pads().1)
            },
            final(self).keys() == old(self).keys(),
            final(self).buttons() == old(self).buttons(),
            final(self).sticks() == old(self).sticks(),
            forall|n: Seq<char>| #[trigger]
                final(self).action_bindings(n) == old(self).action_bindings(n),
            final(self).connected() == old(self).connected(),
    {
        if down {
            names_insert(&mut self.pad_pressed, name);
            names_insert(&mut self.pad_held, name);
        } else {
            names_remove(&mut self.pad_held, name);
        }
    }

    /// Record whether a gamepad is connected.
    pub fn set_gamepad_connected(&mut self, connected: bool)
        ensures
            final(self).connected() == connected,
            final(self).keys() == old(self).keys(),
            final(self).buttons() == old(self).buttons(),
            final(self).pads() == old(self).pads(),
            final(self).sticks() == old(self).sticks(),
            forall|n: Seq<char>| #[trigger]
                final(self).action_bindings(n) == old(self).action_bindings(n),
    {
        self.pad_available = connected;
    }

    pub fn gamepad_connected(&self) -> (r: bool)
        ensures
            r == self.connected(),
    {
        self.pad_available
    }

    pub fn key_held(&self, name: &str) -> (r: bool)
        ensures
            r == self.key_held_spec(name@),
    {
        match key_code(name) {
            Some(k) => set_has(&self.keys_held, k),
            None => false,
        }
    }

    pub fn key_pressed(&self, name: &str) -> (r: bool)
        ensures
            r == self.key_pressed_spec(name@),
    {
        match key_code(name) {
            Some(k) => set_has(&self.keys_pressed, k),
            None => false,
        }
    }

    pub fn key_released(&self, name: &str) -> (r: bool)
        ensures
            r == self.key_released_spec(name@),
    {
        match key_code(name) {
            Some(k) => set_has(&self.keys_released, k),
            None => false,
        }
    }

    /// Same as [`Input::key_held`].
    pub fn key_name_down(&self, name: &str) -> (r: bool)
        ensures
            r == self.key_held_spec(name@),
    {
        self.key_held(name)
    }

    pub fn mouse_held(&self, button: MouseButton) -> (r: bool)
        ensures
            r == self.buttons().0.contains(button),
    {
        set_has(&self.mouse_held, button)
    }

    pub fn mouse_pressed(&self, button: MouseButton) -> (r: bool)
        ensures
            r == self.buttons().1.contains(button),
    {
        set_has(&self.mouse_pressed, button)
    }

    pub fn mouse_released(&self, button: MouseButton) -> (r: bool)
        ensures
            r == self.buttons().2.contains(button),
    {
        set_has(&self.mouse_released, button)
    }

    fn binding_held(&self, b: &Binding) -> (r: bool)
        ensures
            r == self.binding_held_spec(*b),
    {
        match b {
            Binding::Key(k) => self.key_held(k.as_str()),
            Binding::Mouse(m) => match mouse_button(m.as_str()) {
                Some(bt) => self.mouse_held(bt),
                None => false,
            },
            Binding::Pad(p) => names_has(&self.pad_held, p.as_str()),
            Binding::Stick(s) => stick_active(s.as_str(), self.pad_left) || stick_active(
                s.as_str(),
                self.pad_right,
            ),
        }
    }

    fn binding_pressed(&self, b: &Binding) -> (r: bool)
        ensures
            r == self.binding_pressed_spec(*b),
    {
        match b {
            Binding::Key(k) => self.key_pressed(k.as_str()),
            Binding::Mouse(m) => match mouse_button(m.as_str()) {
                Some(bt) => self.mouse_pressed(bt),
                None => false,
            },
            Binding::Pad(p) => names_has(&self.pad_pressed, p.as_str()),
            Binding::Stick(_) => false,
        }
    }

    fn binding_released(&self, b: &Binding) -> (r: bool)
        ensures
            r == self.binding_released_spec(*b),
    {
        match b {
            Binding::Key(k) => self.key_released(k.as_str()),
            Binding::Mouse(m) => match mouse_button(m.as_str()) {
                Some(bt) => self.mouse_released(bt),
                None => false,
            },
            _ => false,
        }
    }

    /// Index of the first action entry named `name`.
    fn action_index(&self, name: &str) -> (r: Option<usize>)
        ensures
            r is None ==> self.action_bindings(name@) is None,
            r matches Some(i) ==> i < self.actions@.len() && self.action_bindings(name@) == Some(
                self.actions@[i as int].1@,
            ),
    {
        let mut i: usize = 0;
        proof {
            assert(self.actions@.skip(0) =~= self.actions@);
        }
        while i < self.actions.len()
            invariant
                i <= self.actions@.len(),
                bindings_named(self.actions@, name@) == bindings_named(
                    self.actions@.skip(i as int),
                    name@,
                ),
            decreases self.actions@.len() - i,
        {
            proof {
                assert(self.actions@.skip(i as int).drop_first() =~= self.actions@.skip(i + 1));
                assert(self.actions@.skip(i as int)[0] == self.actions@[i as int]);
            }
            if str_eq(self.actions[i].0.as_str(), name) {
                return Some(i);
            }
            i += 1;
        }
        None
    }

    pub fn action_held(&self, name: &str) -> (r: bool)
        ensures
            r == match self.action_bindings(name@) {
                Some(bs) => exists|i: int| 0 <= i < bs.len() && self.binding_held_spec(#[trigger] bs[i]),
                None => false,
            },
    {
        match self.action_index(name) {
            Some(a) => {
                let bs = &self.actions[a].1;
                let mut i: usize = 0;
                while i < bs.len()
                    invariant
                        i <= bs@.len(),
                        self.action_bindings(name@) == Some(bs@),
                        forall|j: int| 0 <= j < i ==> !self.binding_held_spec(#[trigger] bs@[j]),
                    decreases bs@.len() - i,
                {
                    if self.binding_held(&bs[i]) {
                        proof {
                            let ghost spec_bs = self.action_bindings(name@).unwrap();
                            assert(self.binding_held_spec(spec_bs[i as int]));
                        }
                        return true;
                    }
                    i += 1;
                }
                false
            },
            None => false,
        }
    }

    pub fn action_pressed(&self, name: &str) -> (r: bool)
        ensures
            r == match self.action_bindings(name@) {
                Some(bs) => exists|i: int| 0 <= i < bs.len() && self.binding_pressed_spec(#[trigger] bs[i]),
                None => false,
            },
    {
        match self.action_index(name) {
            Some(a) => {
                let bs = &self.actions[a].1;
                let mut i: usize = 0;
                while i < bs.len()
                    invariant
                        i <= bs@.len(),
                        self.action_bindings(name@) == Some(bs@),
                        forall|j: int| 0 <= j < i ==> !self.binding_pressed_spec(#[trigger] bs@[j]),
                    decreases bs@.len() - i,
                {
                    if self.binding_pressed(&bs[i]) {
                        proof {
                            let ghost spec_bs = self.action_bindings(name@).unwrap();
                            assert(self.binding_pressed_spec(spec_bs[i as int]));
                        }
                        return true;
                    }
                    i += 1;
                }
                false
            },
            None => false,
        }
    }

    pub fn action_released(&self, name: &str) -> (r: bool)
        ensures
            r == match self.action_bindings(name@) {
                Some(bs) => exists|i: int| 0 <= i < bs.len() && self.binding_released_spec(#[trigger] bs[i]),
                None => false,
            },
    {
        match self.action_index(name) {
            Some(a) => {
                let bs = &self.actions[a].1;
                let mut i: usize = 0;
                while i < bs.len()
                    invariant
                        i <= bs@.len(),
                        self.action_bindings(name@) == Some(bs@),
                        forall|j: int| 0 <= j < i ==> !self.binding_released_spec(#[trigger] bs@[j]),
                    decreases bs@.len() - i,
                {
                    if self.binding_released(&bs[i]) {
                        proof {
                            let ghost spec_bs = self.action_bindings(name@).unwrap();
                            assert(self.binding_released_spec(spec_bs[i as int]));
                        }
                        return true;
                    }
                    i += 1;
                }
                false
            },
            None => false,
        }
    }
}

/// Law: pressing a key that is up makes it held and pressed this frame; at
/// the end of the frame it stays held but is no longer pressed; a repeat
/// press while it is held does not fire a second press edge; releasing it
/// makes it released and no longer held.
pub proof fn law_key_edges<T>(e: Edges<T>, k: T)
    requires
        !e.0.contains(k),
    ensures
        key_event(e, k, true).0.contains(k),
        key_event(e, k, true).1.contains(k),
        frame_end(key_event(e, k, true)).0.contains(k),
        !frame_end(key_event(e, k, true)).1.contains(k),
        !key_event(frame_end(key_event(e, k, true)), k, true).1.contains(k),
        key_event(frame_end(key_event(e, k, true)), k, false).2.contains(k),
        !key_event(frame_end(key_event(e, k, true)), k, false).0.contains(k),
{
}

/// Law: the end of a frame never changes what is held, and leaves no edge.
pub proof fn law_frame_end_keeps_held<T>(e: Edges<T>, k: T)
    ensures
        frame_end(e).0 == e.0,
        !frame_end(e).1.contains(k),
        !frame_end(e).2.contains(k),
{
}

/// Law: a binding to a key by its name is held, pressed and released
/// exactly when that key is held, went down, and went up this frame.
pub proof fn law_key_binding_edges(i: Input, k: Key, name: String)
    requires
        nameable(k),
        name@ == key_name(k),
    ensures
        i.binding_held_spec(Binding::Key(name)) == i.keys().0.contains(k),
        i.binding_pressed_spec(Binding::Key(name)) == i.keys().1.contains(k),
        i.binding_released_spec(Binding::Key(name)) == i.keys().2.contains(k),
{
    law_key_name_round_trip(k);
}

/// Law: the frame a key goes down, an action bound to it by name is held and
/// pressed but not released (unless it had already gone up earlier in the
/// frame); the frame it goes up, the action is released and no longer held.
pub proof fn law_key_binding_release_frame(
    before: Input,
    down: Input,
    up: Input,
    k: Key,
    name: String,
)
    requires
        nameable(k),
        name@ == key_name(k),
        down.keys() == key_event(before.keys(), k, true),
        up.keys() == key_event(down.keys(), k, false),
        !before.keys().2.contains(k),
    ensures
        down.binding_held_spec(Binding::Key(name)),
        !down.binding_released_spec(Binding::Key(name)),
        !before.keys().0.contains(k) ==> down.binding_pressed_spec(Binding::Key(name)),
        up.binding_released_spec(Binding::Key(name)),
        !up.binding_held_spec(Binding::Key(name)),
{
    law_key_binding_edges(down, k, name);
    law_key_binding_edges(up, k, name);
}

} // verus!
