//! Key events as the modes see them, and the tables that bind keys to
//! actions.

use vstd::prelude::*;

verus! {

/// The key of a key event.
#[derive(Debug, PartialEq, Eq, Clone, Copy, Hash, Structural)]
pub enum KeyCode {
    Backspace,
    Enter,
    Left,
    Right,
    Up,
    Down,
    Home,
    End,
    PageUp,
    PageDown,
    Tab,
    BackTab,
    Delete,
    Insert,
    F(u8),
    Char(char),
    Null,
    Esc,
}

/// The modifier keys held with a key.
#[derive(Debug, PartialEq, Eq, Clone, Copy, Hash, Structural)]
pub struct KeyModifiers {
    pub shift: bool,
    pub control: bool,
    pub alt: bool,
}

/// A key with the modifiers held with it.
#[derive(Debug, PartialEq, Eq, Clone, Copy, Hash, Structural)]
pub struct KeyEvent {
    pub code: KeyCode,
    pub modifiers: KeyModifiers,
}

/// What the terminal reports.
#[derive(Debug, PartialEq, Eq, Clone, Copy, Hash, Structural)]
pub enum Event {
    Key(KeyEvent),
    Mouse,
    Resize(u16, u16),
}

impl KeyModifiers {
    pub open spec fn none() -> KeyModifiers {
        KeyModifiers { shift: false, control: false, alt: false }
    }

    /// No modifier but, possibly, shift.
    pub open spec fn at_most_shift(self) -> bool {
        !self.control && !self.alt
    }

    pub fn only_shift_or_none(&self) -> (r: bool)
        ensures
            r == self.at_most_shift(),
    {
        !self.control && !self.alt
    }

    pub fn is_empty(&self) -> (r: bool)
        ensures
            r == (*self == KeyModifiers::none()),
    {
        !self.shift && !self.control && !self.alt
    }
}

impl KeyEvent {
    /// The key `code` without modifiers.
    pub open spec fn key(code: KeyCode) -> KeyEvent {
        KeyEvent { code, modifiers: KeyModifiers::none() }
    }

    /// The character `ch` without modifiers.
    pub open spec fn plain(ch: char) -> KeyEvent {
        KeyEvent::key(KeyCode::Char(ch))
    }

    /// The character `ch` with Alt.
    pub open spec fn alt(ch: char) -> KeyEvent {
        KeyEvent {
            code: KeyCode::Char(ch),
            modifiers: KeyModifiers { shift: false, control: false, alt: true },
        }
    }

    /// The character `ch` with Control.
    pub open spec fn ctrl(ch: char) -> KeyEvent {
        KeyEvent {
            code: KeyCode::Char(ch),
            modifiers: KeyModifiers { shift: false, control: true, alt: false },
        }
    }

    /// The same key without shift.
    pub open spec fn unshifted(self) -> KeyEvent {
        KeyEvent {
            code: self.code,
            modifiers: KeyModifiers {
                shift: false,
                control: self.modifiers.control,
                alt: self.modifiers.alt,
            },
        }
    }
}

/// The action that the first `n` bindings give `key`; of two bindings for
/// one key the later one counts.
pub open spec fn bound<T>(maps: Seq<(KeyEvent, T)>, key: KeyEvent, n: int) -> Option<T>
    decreases n,
{
    if n <= 0 {
        None
    } else if maps[n - 1].0 == key {
        Some(maps[n - 1].1)
    } else {
        bound(maps, key, n - 1)
    }
}

/// The action that the bindings give an event: that of its key, shift
/// left aside; none for an event that is no key.
pub open spec fn bound_action<T>(maps: Seq<(KeyEvent, T)>, evt: Event) -> Option<T> {
    match evt {
        Event::Key(key) => bound(maps, key.unshifted(), maps.len() as int),
        _ => None,
    }
}

/// A table that binds keys to actions.
#[derive(Debug, Clone)]
pub struct KeyMap<T: Copy> {
    pub maps: Vec<(KeyEvent, T)>,
}

impl<T: Copy> KeyMap<T> {
    /// A table without bindings.
    pub fn new() -> (r: Self)
        ensures
            r.maps@ == Seq::<(KeyEvent, T)>::empty(),
    {
        KeyMap { maps: Vec::new() }
    }

    /// Binds the character `ch`, without modifiers, to `action`.
    pub fn plain(&mut self, ch: char, action: T)
        ensures
            final(self).maps@ == old(self).maps@.push((KeyEvent::plain(ch), action)),
    {
        self.bind(KeyCode::Char(ch), false, false, action)
    }

    /// Binds the character `ch` with Alt to `action`.
    pub fn alt(&mut self, ch: char, action: T)
        ensures
            final(self).maps@ == old(self).maps@.push((KeyEvent::alt(ch), action)),
    {
        self.bind(KeyCode::Char(ch), false, true, action)
    }

    /// Binds the character `ch` with Control to `action`.
    pub fn ctrl(&mut self, ch: char, action: T)
        ensures
            final(self).maps@ == old(self).maps@.push((KeyEvent::ctrl(ch), action)),
    {
        self.bind(KeyCode::Char(ch), true, false, action)
    }

    /// Binds the key `code`, without modifiers, to `action`.
    pub fn key(&mut self, code: KeyCode, action: T)
        ensures
            final(self).maps@ == old(self).maps@.push((KeyEvent::key(code), action)),
    {
        self.bind(code, false, false, action)
    }

    fn bind(&mut self, code: KeyCode, control: bool, alt: bool, action: T)
        ensures
            final(self).maps@ == old(self).maps@.push(
                (KeyEvent { code, modifiers: KeyModifiers { shift: false, control, alt } }, action),
            ),
    {
        self.maps.push(
            (KeyEvent { code, modifiers: KeyModifiers { shift: false, control, alt } }, action),
        );
    }

    /// The action bound to the key of `evt`, with or without shift.
    pub fn event_to_action(&self, evt: &Event) -> (r: Option<T>)
        ensures
            r == bound_action(self.maps@, *evt),
    {
        match evt {
            Event::Key(key) => {
                let wanted = KeyEvent {
                    code: key.code,
                    modifiers: KeyModifiers {
                        shift: false,
                        control: key.modifiers.control,
                        alt: key.modifiers.alt,
                    },
                };
                let mut n: usize = self.maps.len();
                while n > 0
                    invariant
                        n <= self.maps.len(),
                        *evt == Event::Key(*key),
                        wanted == key.unshifted(),
                        bound(self.maps@, wanted, self.maps@.len() as int) == bound(
                            self.maps@,
                            wanted,
                            n as int,
                        ),
                    decreases n,
                {
                    if self.maps[n - 1].0 == wanted {
                        return Some(self.maps[n - 1].1);
                    }
                    n -= 1;
                }
                None
            },
            _ => None,
        }
    }
}

} // verus!
