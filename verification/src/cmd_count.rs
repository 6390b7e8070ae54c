//! The count that is typed in front of a command, digit by digit, in
//! decimal or, after `x`, in hexadecimal.

use crate::keymap::{bound_action, Event, KeyCode, KeyEvent, KeyMap};
use crate::text::{decimal, digits, hexadecimal};
use vstd::prelude::*;
use vstd::string::*;

verus! {

/// The count typed so far, if any.
#[derive(Debug, PartialEq, Eq, Clone, Copy, Hash, Structural)]
pub enum State {
    /// No count was typed; commands take it as one.
    NoCount,
    /// The count typed so far and its notation.
    Typed { hex: bool, count: usize },
}

/// What a key does to the count.
#[derive(Debug, PartialEq, Eq, Clone, Copy, Hash, Structural)]
pub enum Action {
    AppendDigit(u8),
    CancelEntry,
    SwitchHexEntry,
    RemoveLast,
}

/// What became of the count.
#[derive(Debug, PartialEq, Eq, Clone, Copy, Hash, Structural)]
pub enum Transition {
    NotHandled,
    Update(State),
}

/// The keys of the count: the digits, `a` to `f` for hexadecimal, `x` to
/// change the notation, Backspace to take the last digit back and Esc to
/// drop the count.
pub open spec fn bindings() -> Seq<(KeyEvent, Action)> {
    seq![
        (KeyEvent::key(KeyCode::Esc), Action::CancelEntry),
        (KeyEvent::key(KeyCode::Backspace), Action::RemoveLast),
        (KeyEvent::plain('x'), Action::SwitchHexEntry),
        (KeyEvent::plain('0'), Action::AppendDigit(0)),
        (KeyEvent::plain('1'), Action::AppendDigit(1)),
        (KeyEvent::plain('2'), Action::AppendDigit(2)),
        (KeyEvent::plain('3'), Action::AppendDigit(3)),
        (KeyEvent::plain('4'), Action::AppendDigit(4)),
        (KeyEvent::plain('5'), Action::AppendDigit(5)),
        (KeyEvent::plain('6'), Action::AppendDigit(6)),
        (KeyEvent::plain('7'), Action::AppendDigit(7)),
        (KeyEvent::plain('8'), Action::AppendDigit(8)),
        (KeyEvent::plain('9'), Action::AppendDigit(9)),
        (KeyEvent::plain('a'), Action::AppendDigit(10)),
        (KeyEvent::plain('b'), Action::AppendDigit(11)),
        (KeyEvent::plain('c'), Action::AppendDigit(12)),
        (KeyEvent::plain('d'), Action::AppendDigit(13)),
        (KeyEvent::plain('e'), Action::AppendDigit(14)),
        (KeyEvent::plain('f'), Action::AppendDigit(15)),
    ]
}

pub fn default_maps() -> (r: KeyMap<Action>)
    ensures
        r.maps@ == bindings(),
{
    let mut map = KeyMap::new();
    map.key(KeyCode::Esc, Action::CancelEntry);
    map.key(KeyCode::Backspace, Action::RemoveLast);
    map.plain('x', Action::SwitchHexEntry);
    map.plain('0', Action::AppendDigit(0));
    map.plain('1', Action::AppendDigit(1));
    map.plain('2', Action::AppendDigit(2));
    map.plain('3', Action::AppendDigit(3));
    map.plain('4', Action::AppendDigit(4));
    map.plain('5', Action::AppendDigit(5));
    map.plain('6', Action::AppendDigit(6));
    map.plain('7', Action::AppendDigit(7));
    map.plain('8', Action::AppendDigit(8));
    map.plain('9', Action::AppendDigit(9));
    map.plain('a', Action::AppendDigit(10));
    map.plain('b', Action::AppendDigit(11));
    map.plain('c', Action::AppendDigit(12));
    map.plain('d', Action::AppendDigit(13));
    map.plain('e', Action::AppendDigit(14));
    map.plain('f', Action::AppendDigit(15));
    assert(map.maps@ =~= bindings());
    map
}

impl State {
    /// The count with one more digit in the notation with the base `base`,
    /// if that is a `usize`.
    pub open spec fn appended(count: usize, base: int, digit: u8) -> Option<usize> {
        if count * base + digit <= usize::MAX {
            Some((count * base + digit) as usize)
        } else {
            None
        }
    }

    /// What `action` makes of the count. A digit starts or extends the
    /// count in its notation; a first digit 0 in decimal, a digit above 9
    /// in decimal, and a digit that makes the count too large for a `usize`
    /// are not taken. Taking back the only digit drops the count.
    pub open spec fn stepped(self, action: Action) -> Transition {
        match (self, action) {
            (State::NoCount, Action::AppendDigit(d)) => if d > 9 || d == 0 {
                Transition::NotHandled
            } else {
                Transition::Update(State::Typed { hex: false, count: d as usize })
            },
            (State::NoCount, Action::CancelEntry) => Transition::NotHandled,
            (State::NoCount, Action::SwitchHexEntry) => Transition::Update(
                State::Typed { hex: true, count: 0 },
            ),
            (State::NoCount, Action::RemoveLast) => Transition::NotHandled,
            (State::Typed { hex, count }, Action::AppendDigit(d)) => if !hex && d > 9 {
                Transition::NotHandled
            } else {
                match Self::appended(count, if hex { 16 } else { 10 }, d) {
                    Some(more) => Transition::Update(State::Typed { hex, count: more }),
                    None => Transition::NotHandled,
                }
            },
            (State::Typed { hex, count }, Action::RemoveLast) => if hex && count >= 16 {
                Transition::Update(State::Typed { hex, count: count / 16 })
            } else if !hex && count >= 10 {
                Transition::Update(State::Typed { hex, count: count / 10 })
            } else {
                Transition::Update(State::NoCount)
            },
            (State::Typed { .. }, Action::CancelEntry) => Transition::Update(State::NoCount),
            (State::Typed { hex, count }, Action::SwitchHexEntry) => Transition::Update(
                State::Typed { hex: !hex, count },
            ),
        }
    }

    /// What an event makes of the count.
    pub open spec fn after(self, event: Event) -> Transition {
        match bound_action(bindings(), event) {
            Some(action) => self.stepped(action),
            None => Transition::NotHandled,
        }
    }

    /// Takes an event: a key of the count changes the count, anything else
    /// is not handled.
    pub fn transition(self, event: &Event) -> (r: Transition)
        ensures
            r == self.after(*event),
    {
        match default_maps().event_to_action(event) {
            Some(action) => self.step(action),
            None => Transition::NotHandled,
        }
    }

    fn step(self, action: Action) -> (r: Transition)
        ensures
            r == self.stepped(action),
    {
        match (self, action) {
            (State::NoCount, Action::AppendDigit(d)) => {
                if d > 9 || d == 0 {
                    Transition::NotHandled
                } else {
                    Transition::Update(State::Typed { hex: false, count: d as usize })
                }
            },
            (State::NoCount, Action::CancelEntry) => Transition::NotHandled,
            (State::NoCount, Action::SwitchHexEntry) => Transition::Update(
                State::Typed { hex: true, count: 0 },
            ),
            (State::NoCount, Action::RemoveLast) => Transition::NotHandled,
            (State::Typed { hex, count }, Action::AppendDigit(d)) => {
                if !hex && d > 9 {
                    Transition::NotHandled
                } else {
                    let base: usize = if hex {
                        16
                    } else {
                        10
                    };
                    let more = match count.checked_mul(base) {
                        Some(shifted) => shifted.checked_add(d as usize),
                        None => None,
                    };
                    match more {
                        Some(count) => Transition::Update(State::Typed { hex, count }),
                        None => Transition::NotHandled,
                    }
                }
            },
            (State::Typed { hex, count }, Action::RemoveLast) => {
                if hex && count >= 16 {
                    Transition::Update(State::Typed { hex, count: count / 16 })
                } else if !hex && count >= 10 {
                    Transition::Update(State::Typed { hex, count: count / 10 })
                } else {
                    Transition::Update(State::NoCount)
                }
            },
            (State::Typed { .. }, Action::CancelEntry) => Transition::Update(State::NoCount),
            (State::Typed { hex, count }, Action::SwitchHexEntry) => Transition::Update(
                State::Typed { hex: !hex, count },
            ),
        }
    }

    /// The count, where no count stands for one.
    pub open spec fn spec_to_count(self) -> usize {
        match self {
            State::Typed { count, .. } => count,
            State::NoCount => 1,
        }
    }

    pub fn to_count(&self) -> (r: usize)
        ensures
            r == self.spec_to_count(),
    {
        match self {
            State::Typed { count, .. } => *count,
            State::NoCount => 1,
        }
    }

    /// The count as the status line shows it behind the name of the mode:
    /// nothing without a count, ` (123)` in decimal, ` (0x7f)` in
    /// hexadecimal, and ` (0x)` before the first hexadecimal digit.
    pub open spec fn text(self) -> Seq<char> {
        match self {
            State::NoCount => Seq::empty(),
            State::Typed { hex: true, count } => if count == 0 {
                " (0x)"@
            } else {
                " (0x"@ + digits(count as int, 16) + ")"@
            },
            State::Typed { hex: false, count } => " ("@ + digits(count as int, 10) + ")"@,
        }
    }

    pub fn to_string(&self) -> (r: String)
        ensures
            r@ == self.text(),
    {
        match self {
            State::NoCount => {
                let r = String::new();
                assert(r@ =~= Seq::<char>::empty());
                r
            },
            State::Typed { hex: true, count } => {
                if *count == 0 {
                    String::from_str(" (0x)")
                } else {
                    let mut text = String::from_str(" (0x");
                    let number = hexadecimal(*count);
                    text.append(number.as_str());
                    text.append(")");
                    text
                }
            },
            State::Typed { hex: false, count } => {
                let mut text = String::from_str(" (");
                let number = decimal(*count);
                text.append(number.as_str());
                text.append(")");
                text
            },
        }
    }
}


/// The number that the first `n` digits spell in the notation with the
/// base `base`.
pub open spec fn spelled(typed: Seq<u8>, base: int, n: int) -> int
    decreases n,
{
    if n <= 0 {
        0
    } else {
        spelled(typed, base, n - 1) * base + typed[n - 1]
    }
}

/// The count after the first `n` of the digits `typed` were typed, one
/// after the other, starting from `state`; `None` if one of them was not
/// taken.
pub open spec fn counted(state: State, typed: Seq<u8>, n: int) -> Option<State>
    decreases n,
{
    if n <= 0 {
        Some(state)
    } else {
        match counted(state, typed, n - 1) {
            Some(before) => match before.stepped(Action::AppendDigit(typed[n - 1])) {
                Transition::Update(next) => Some(next),
                Transition::NotHandled => None,
            },
            None => None,
        }
    }
}

/// Digits that are typed one after the other give the count that they
/// spell: in decimal if nothing was typed before and the first digit is
/// not 0, in hexadecimal if `x` was typed before. A command takes that
/// number as its count.
pub proof fn lemma_count_typed(typed: Seq<u8>, hex: bool, n: int)
    requires
        0 < n <= typed.len(),
        forall|i: int| 0 <= i < n ==> #[trigger] typed[i] < if hex { 16u8 } else { 10u8 },
        !hex ==> typed[0] != 0,
        spelled(typed, if hex { 16 } else { 10 }, n) <= usize::MAX,
    ensures
        State::NoCount.stepped(Action::SwitchHexEntry) == Transition::Update(
            State::Typed { hex: true, count: 0 },
        ),
        counted(
            if hex {
                State::Typed { hex: true, count: 0 }
            } else {
                State::NoCount
            },
            typed,
            n,
        ) == Some(
            State::Typed {
                hex,
                count: spelled(typed, if hex { 16 } else { 10 }, n) as usize,
            },
        ),
        counted(
            if hex {
                State::Typed { hex: true, count: 0 }
            } else {
                State::NoCount
            },
            typed,
            n,
        ).unwrap().spec_to_count() == spelled(typed, if hex { 16 } else { 10 }, n),
    decreases n,
{
    let base: int = if hex {
        16
    } else {
        10
    };
    let start = if hex {
        State::Typed { hex: true, count: 0 }
    } else {
        State::NoCount
    };
    lemma_spelled_grows(typed, base, n);
    assert(typed[n - 1] < base);
    if n > 1 {
        lemma_count_typed(typed, hex, n - 1);
    } else {
        assert(counted(start, typed, 0) == Some(start));
        assert(spelled(typed, base, 0) == 0);
        assert(typed[0] < base);
    }
}

/// Every digit more makes the number that is spelled no smaller.
pub proof fn lemma_spelled_grows(typed: Seq<u8>, base: int, n: int)
    requires
        0 < n,
        1 <= base,
    ensures
        0 <= spelled(typed, base, n - 1) <= spelled(typed, base, n),
    decreases n,
{
    if n > 1 {
        lemma_spelled_grows(typed, base, n - 1);
    }
    let before = spelled(typed, base, n - 1);
    assert(before <= before * base) by (nonlinear_arith)
        requires
            0 <= before,
            1 <= base,
    ;
}

/// A first digit 0 does not start a count.
pub proof fn lemma_zero_starts_no_count()
    ensures
        State::NoCount.stepped(Action::AppendDigit(0)) == Transition::NotHandled,
{
}

} // verus!
