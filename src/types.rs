use vstd::prelude::*;

verus! {

/// Identifier of a key, by its Linux input event code (the `KEY_*` constants).
#[derive(Clone, Copy, Debug, PartialEq, Eq, Structural, Hash)]
pub struct KeyCode {
    pub code: u32,
}

impl KeyCode {
    pub fn new(code: u32) -> (r: KeyCode)
        ensures
            r.code == code,
    {
        KeyCode { code }
    }
}

pub const KEY_LEFTCTRL: u32 = 29;

pub const KEY_LEFTSHIFT: u32 = 42;

pub const KEY_RIGHTSHIFT: u32 = 54;

pub const KEY_LEFTALT: u32 = 56;

pub const KEY_RIGHTCTRL: u32 = 97;

pub const KEY_RIGHTALT: u32 = 100;

pub const KEY_LEFTMETA: u32 = 125;

pub const KEY_RIGHTMETA: u32 = 126;

pub const KEY_FN: u32 = 464;

/// The fixed set of modifier keys: Fn, and the left and right Alt, Meta, Ctrl
/// and Shift keys.
pub open spec fn is_modifier_key(k: KeyCode) -> bool {
    ||| k.code == KEY_FN
    ||| k.code == KEY_LEFTALT
    ||| k.code == KEY_RIGHTALT
    ||| k.code == KEY_LEFTMETA
    ||| k.code == KEY_RIGHTMETA
    ||| k.code == KEY_LEFTCTRL
    ||| k.code == KEY_RIGHTCTRL
    ||| k.code == KEY_LEFTSHIFT
    ||| k.code == KEY_RIGHTSHIFT
}

pub fn is_modifier(key: &KeyCode) -> (r: bool)
    ensures
        r == is_modifier_key(*key),
{
    match key.code {
        KEY_FN | KEY_LEFTALT | KEY_RIGHTALT | KEY_LEFTMETA | KEY_RIGHTMETA | KEY_LEFTCTRL
        | KEY_RIGHTCTRL | KEY_LEFTSHIFT | KEY_RIGHTSHIFT => true,
        _ => false,
    }
}

/// Seconds and microseconds at which an input event occurred.
#[derive(Clone, Copy, Debug, PartialEq, Eq, Structural)]
pub struct TimeVal {
    pub tv_sec: i64,
    pub tv_usec: i64,
}

/// The kind of a key transition, with the raw value of an unrecognised one.
#[derive(Clone, Copy, Debug, PartialEq, Eq, Structural)]
pub enum KeyEventType {
    Release,
    Press,
    Repeat,
    Unknown(i32),
}

/// The kind that a raw event value denotes.
pub open spec fn kind_of_value(value: i32) -> KeyEventType {
    if value == 0 {
        KeyEventType::Release
    } else if value == 1 {
        KeyEventType::Press
    } else if value == 2 {
        KeyEventType::Repeat
    } else {
        KeyEventType::Unknown(value)
    }
}

/// The raw event value of a kind.
pub open spec fn value_of_kind(kind: KeyEventType) -> i32 {
    match kind {
        KeyEventType::Release => 0,
        KeyEventType::Press => 1,
        KeyEventType::Repeat => 2,
        KeyEventType::Unknown(n) => n,
    }
}

impl KeyEventType {
    pub fn from_value(value: i32) -> (r: Self)
        ensures
            r == kind_of_value(value),
    {
        match value {
            0 => KeyEventType::Release,
            1 => KeyEventType::Press,
            2 => KeyEventType::Repeat,
            _ => KeyEventType::Unknown(value),
        }
    }

    pub fn value(&self) -> (r: i32)
        ensures
            r == value_of_kind(*self),
    {
        match self {
            Self::Release => 0,
            Self::Press => 1,
            Self::Repeat => 2,
            Self::Unknown(n) => *n,
        }
    }
}

/// A key transition as read from, or written to, an input device.
#[derive(Clone, Copy, Debug, PartialEq, Eq, Structural)]
pub struct EvKeyEvent {
    /// The time at which the event occurred.
    pub time: TimeVal,
    pub ev_key: KeyCode,
    pub key_event_type: KeyEventType,
}

} // verus!
