//! The mode in which every selected byte is overwritten with one byte,
//! typed as a character or as two hex digits.

use crate::buffer::{BufferView, Buffers, BuffersView};
use crate::keymap::{bound_action, Event, KeyCode, KeyEvent, KeyMap};
use crate::modes::mode::{
    apply_edit_in_place, delta_pieces_of, edit_made_in_place, layout_kept, Mode, ModeTransition,
    RegionMap,
};
use crate::modes::normal::Normal;
use crate::operations as ops;
use crate::selection::Direction;
use crate::text::{digit_char, digit_str_of, hex_digit, hex_value, low_byte, low_byte_of};
use crate::view::view_options::ViewOptions;
use vstd::prelude::*;
use vstd::string::*;

verus! {

/// Waits for the byte to overwrite the selection with. While `hex_half`
/// holds a byte, its first hex digit was typed.
#[derive(Debug, PartialEq, Eq, Clone, Copy, Structural)]
pub struct Replace {
    pub hex: bool,
    pub hex_half: Option<u8>,
}

/// What a key does in this mode, apart from the byte that is typed.
#[derive(Debug, PartialEq, Eq, Clone, Copy, Structural)]
pub enum Action {
    Null,
    Move(Direction),
}

/// The keys of the mode.
pub open spec fn bindings() -> Seq<(KeyEvent, Action)> {
    seq![
        (KeyEvent::ctrl('n'), Action::Null),
        (KeyEvent::key(KeyCode::Right), Action::Move(Direction::Right)),
        (KeyEvent::key(KeyCode::Left), Action::Move(Direction::Left)),
        (KeyEvent::key(KeyCode::Up), Action::Move(Direction::Up)),
        (KeyEvent::key(KeyCode::Down), Action::Move(Direction::Down)),
    ]
}

pub fn default_maps() -> (r: KeyMap<Action>)
    ensures
        r.maps@ == bindings(),
{
    let mut map = KeyMap::new();
    map.ctrl('n', Action::Null);
    map.key(KeyCode::Right, Action::Move(Direction::Right));
    map.key(KeyCode::Left, Action::Move(Direction::Left));
    map.key(KeyCode::Up, Action::Move(Direction::Up));
    map.key(KeyCode::Down, Action::Move(Direction::Down));
    assert(map.maps@ =~= bindings());
    map
}

/// `after` is `before` with every selected byte overwritten with `byte`,
/// as one step to undo on top of the run of incomplete edits that was under
/// way, if any. The selection stays where it is.
pub open spec fn overwritten(byte: u8, before: BufferView, after: BufferView) -> bool {
    let start = before.committed();
    let len = start.data.len() as int;
    edit_made_in_place(
        start,
        after,
        delta_pieces_of(ops::replace_edits(start.selection.regions, len, byte), len),
        false,
    )
}

impl Replace {
    /// The name of the mode, with the digit that was typed of a byte, if
    /// one was.
    pub open spec fn name_text(self) -> Seq<char> {
        match (self.hex, self.hex_half) {
            (true, None) => "REPLACE (hex)"@,
            (false, _) => "REPLACE (ascii)"@,
            (true, Some(ch)) => "REPLACE (hex: "@ + seq![digit_char(ch as int / 16)] + "...)"@,
        }
    }

    pub fn name(&self) -> (r: String)
        ensures
            r@ == self.name_text(),
    {
        match (self.hex, self.hex_half) {
            (true, None) => "REPLACE (hex)".to_owned(),
            (false, _) => "REPLACE (ascii)".to_owned(),
            (true, Some(ch)) => {
                let mut name = String::from_str("REPLACE (hex: ");
                name.append(digit_str_of((ch / 16) as usize));
                name.append("...)");
                name
            },
        }
    }

    pub fn has_half_cursor(&self) -> (r: bool)
        ensures
            r == self.hex_half is Some,
    {
        self.hex_half.is_some()
    }

    /// What the mode answers to an event. Control-n overwrites the
    /// selection with zero bytes and leads to normal mode. An arrow moves
    /// the carets, unless a byte is half typed. A character with no
    /// modifier but shift overwrites the selection in ascii; in hex, two
    /// digits do, and what is no digit leads to normal mode. Any other key
    /// leads to normal mode, and what is no key is not for this mode.
    pub open spec fn answers(
        self,
        event: Event,
        before: BuffersView,
        options_before: ViewOptions,
        r: ModeTransition,
        after: BuffersView,
    ) -> bool {
        let current = before.list[before.current];
        let normal = Mode::Normal(Normal::new_spec());
        &&& after.current == before.current
        &&& after.list == before.list.update(before.current, after.list[before.current])
        &&& match bound_action(bindings(), event) {
            Some(Action::Null) => overwritten(0, current, after.list[before.current])
                && r.is_new_mode(normal),
            Some(Action::Move(direction)) => r.is_new_mode(Mode::Replace(self)) && after.list[before.current]
                == if self.hex_half is None {
                RegionMap::Move(direction, 1).moved(current, options_before.bytes_per_line as int)
            } else {
                current
            },
            None => match event {
                Event::Key(KeyEvent { code: KeyCode::Char(ch), modifiers }) => if !modifiers.at_most_shift() {
                    after == before && r.is_new_mode(normal)
                } else if !self.hex {
                    overwritten(low_byte_of(ch), current, after.list[before.current])
                        && r.is_new_mode(Mode::Replace(self))
                } else {
                    match (hex_value(ch), self.hex_half) {
                        (None, _) => after == before && r.is_new_mode(normal),
                        (Some(digit), None) => after == before && r.is_new_mode(
                            Mode::Replace(
                                Replace { hex: self.hex, hex_half: Some((digit * 16) as u8) },
                            ),
                        ),
                        (Some(digit), Some(half)) => overwritten(
                            digit | half,
                            current,
                            after.list[before.current],
                        ) && r.is_new_mode(Mode::Replace(Replace { hex: self.hex, hex_half: None })),
                    }
                },
                Event::Key(_) => after == before && r.is_new_mode(normal),
                _ => after == before && r == ModeTransition::NotHandled(Mode::Replace(self)),
            },
        }
    }

    pub fn transition(self, evt: &Event, buffers: &mut Buffers, options: &mut ViewOptions) -> (r:
        ModeTransition)
        requires
            old(buffers).wf(),
        ensures
            final(buffers).wf(),
            layout_kept(*old(options), *final(options)),
            self.answers(*evt, old(buffers)@, *old(options), r, final(buffers)@),
    {
        let buffer = buffers.current_mut();
        proof {
            buffer.lemma_wf();
        }
        match default_maps().event_to_action(evt) {
            Some(Action::Null) => {
                buffer.commit_delta();
                proof {
                    buffer.lemma_wf();
                }
                let delta = ops::replace(buffer.data(), buffer.selection(), 0);
                apply_edit_in_place(buffer, options, delta, false);
                ModeTransition::new_mode(Mode::Normal(Normal::new()))
            },
            Some(Action::Move(direction)) => {
                // The carets do not move while a byte is half typed.
                if self.hex_half.is_none() {
                    RegionMap::Move(direction, 1).perform(buffer, options);
                }
                ModeTransition::new_mode(Mode::Replace(self))
            },
            None => {
                match evt {
                    Event::Key(KeyEvent { code: KeyCode::Char(ch), modifiers }) => {
                        if !modifiers.only_shift_or_none() {
                            return ModeTransition::new_mode(Mode::Normal(Normal::new()));
                        }
                        if !self.hex {
                            buffer.commit_delta();
                            proof {
                                buffer.lemma_wf();
                            }
                            let delta = ops::replace(
                                buffer.data(),
                                buffer.selection(),
                                low_byte(*ch),
                            );
                            apply_edit_in_place(buffer, options, delta, false);
                            return ModeTransition::new_mode(Mode::Replace(self));
                        }
                        let digit = match hex_digit(*ch) {
                            Some(digit) => digit,
                            None => {
                                return ModeTransition::new_mode(Mode::Normal(Normal::new()));
                            },
                        };
                        match self.hex_half {
                            None => ModeTransition::new_mode(
                                Mode::Replace(Replace { hex: self.hex, hex_half: Some(digit * 16) }),
                            ),
                            Some(half) => {
                                buffer.commit_delta();
                                proof {
                                    buffer.lemma_wf();
                                }
                                let delta = ops::replace(
                                    buffer.data(),
                                    buffer.selection(),
                                    digit | half,
                                );
                                apply_edit_in_place(buffer, options, delta, false);
                                ModeTransition::new_mode(
                                    Mode::Replace(Replace { hex: self.hex, hex_half: None }),
                                )
                            },
                        }
                    },
                    Event::Key(_) => ModeTransition::new_mode(Mode::Normal(Normal::new())),
                    _ => ModeTransition::not_handled(Mode::Replace(self)),
                }
            },
        }
    }
}

} // verus!
