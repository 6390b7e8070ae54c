//! The mode in which bytes are typed: inserted in front of the carets,
//! appended behind the regions, or written over what the carets stand on.
//! Every edit is part of one run, which becomes one step to undo when the
//! mode is left.

use crate::buffer::{Buffer, BufferView, Buffers, BuffersView};
use crate::keymap::{bound_action, Event, KeyCode, KeyEvent, KeyMap};
use crate::modes::mode::{
    apply_edit, apply_edit_in_place, delta_pieces_of, edit_done_in_place, edit_made,
    edit_made_in_place, layout_kept, options_kept, Mode, ModeTransition, RegionMap,
};
use crate::modes::normal::Normal;
use crate::operations as ops;
use crate::selection::Direction;
use crate::text::{hex_digit, hex_value, utf8_bytes};
use crate::view::view_options::ViewOptions;
use vstd::prelude::*;

verus! {

/// Where typed bytes go.
#[derive(Debug, PartialEq, Eq, Clone, Copy, Structural)]
pub enum InsertionMode {
    Insert,
    Append,
    Overwrite,
}

/// Typing bytes, in ascii or, with `hex`, as pairs of hex digits. While
/// `hex_half` holds a byte, its first digit was typed and the byte at each
/// caret is that byte until the second digit completes it.
#[derive(Debug, PartialEq, Eq, Clone, Copy, Structural)]
pub struct Insert {
    pub mode: InsertionMode,
    pub hex: bool,
    pub hex_half: Option<u8>,
}

/// What a key does while bytes are typed.
#[derive(Debug, PartialEq, Eq, Clone, Copy, Structural)]
pub enum Action {
    InsertNull,
    SwitchInputMode,
    RemoveLast,
    RemoveThis,
    Exit,
    Move(Direction),
}

/// The keys of the mode, apart from the bytes that are typed.
pub open spec fn bindings() -> Seq<(KeyEvent, Action)> {
    seq![
        (KeyEvent::ctrl('n'), Action::InsertNull),
        (KeyEvent::ctrl('o'), Action::SwitchInputMode),
        (KeyEvent::key(KeyCode::Backspace), Action::RemoveLast),
        (KeyEvent::key(KeyCode::Delete), Action::RemoveThis),
        (KeyEvent::key(KeyCode::Esc), Action::Exit),
        (KeyEvent::key(KeyCode::Right), Action::Move(Direction::Right)),
        (KeyEvent::key(KeyCode::Left), Action::Move(Direction::Left)),
        (KeyEvent::key(KeyCode::Up), Action::Move(Direction::Up)),
        (KeyEvent::key(KeyCode::Down), Action::Move(Direction::Down)),
    ]
}

pub fn default_maps() -> (r: KeyMap<Action>)
    ensures
        r.maps@ == bindings(),
{
    let mut map = KeyMap::new();
    map.ctrl('n', Action::InsertNull);
    map.ctrl('o', Action::SwitchInputMode);
    map.key(KeyCode::Backspace, Action::RemoveLast);
    map.key(KeyCode::Delete, Action::RemoveThis);
    map.key(KeyCode::Esc, Action::Exit);
    map.key(KeyCode::Right, Action::Move(Direction::Right));
    map.key(KeyCode::Left, Action::Move(Direction::Left));
    map.key(KeyCode::Up, Action::Move(Direction::Up));
    map.key(KeyCode::Down, Action::Move(Direction::Down));
    assert(map.maps@ =~= bindings());
    map
}

/// The byte with the hex digit `digit` on top and nothing below.
pub open spec fn upper_half(digit: u8) -> u8 {
    (digit * 16) as u8
}

/// `after` is `before` with one byte written over the byte at each caret:
/// the edit is made in place, and then every region becomes a cursor one
/// byte on, if `advance` is set.
pub open spec fn written_over(
    byte: u8,
    advance: bool,
    before: BufferView,
    bytes_per_line: int,
    after: BufferView,
) -> bool {
    let len = before.data.len() as int;
    let pieces = delta_pieces_of(ops::change_edits(before.selection.regions, len, seq![byte]), len);
    if edit_done_in_place(before, pieces) {
        exists|written: BufferView| #[trigger]
            edit_made_in_place(before, written, pieces, true) && after == if advance {
                RegionMap::Move(Direction::Right, 1).moved(written, bytes_per_line)
            } else {
                written
            }
    } else {
        after == before
    }
}

/// `after` is `before` with `text` typed in ascii mode: inserted at each
/// caret or, when overwriting, put in the place of the byte there. A single
/// byte is written over in place, and the carets move on by one.
pub open spec fn ascii_typed(
    mode: InsertionMode,
    text: Seq<u8>,
    before: BufferView,
    bytes_per_line: int,
    after: BufferView,
) -> bool {
    let len = before.data.len() as int;
    let regions = before.selection.regions;
    match mode {
        InsertionMode::Overwrite => if text.len() == 1 {
            written_over(text[0], true, before, bytes_per_line, after)
        } else {
            edit_made(
                before,
                after,
                delta_pieces_of(ops::change_edits(regions, len, text), len),
                true,
                0,
                0,
            )
        },
        _ => edit_made(
            before,
            after,
            delta_pieces_of(ops::insert_edits(regions, text), len),
            true,
            0,
            0,
        ),
    }
}

/// `after` is `before` with the hex digit `digit` typed. The first digit of
/// a byte puts the byte with that digit on top at each caret, inserted or,
/// when overwriting, in the place of the byte there, and the carets stay
/// on it; the second digit completes the byte, and the carets move on.
pub open spec fn hex_typed(
    mode: InsertionMode,
    hex_half: Option<u8>,
    digit: u8,
    before: BufferView,
    bytes_per_line: int,
    after: BufferView,
) -> bool {
    let len = before.data.len() as int;
    let regions = before.selection.regions;
    match (mode, hex_half) {
        (InsertionMode::Overwrite, None) => written_over(
            upper_half(digit),
            false,
            before,
            bytes_per_line,
            after,
        ),
        (InsertionMode::Overwrite, Some(half)) => written_over(
            half | digit,
            true,
            before,
            bytes_per_line,
            after,
        ),
        (_, None) => edit_made(
            before,
            after,
            delta_pieces_of(ops::insert_edits(regions, seq![upper_half(digit)]), len),
            true,
            -1,
            0,
        ),
        (_, Some(half)) => edit_made(
            before,
            after,
            delta_pieces_of(ops::change_edits(regions, len, seq![half | digit]), len),
            true,
            0,
            0,
        ),
    }
}

/// Writes `byte` over the byte at each caret of `buffer`, in place, and
/// then, with `advance`, makes every region a cursor one byte on.
pub fn write_over(buffer: &mut Buffer, options: &mut ViewOptions, byte: u8, advance: bool)
    requires
        old(buffer).wf(),
    ensures
        final(buffer).wf(),
        options_kept(*old(options), *final(options)),
        written_over(
            byte,
            advance,
            old(buffer)@,
            old(options).bytes_per_line as int,
            final(buffer)@,
        ),
{
    proof {
        buffer.lemma_wf();
    }
    let delta = ops::overwrite_half(buffer.data(), buffer.selection(), byte);
    let ghost pieces = crate::modes::mode::made_pieces(delta);
    if apply_edit_in_place(buffer, options, delta, true) {
        let ghost written = buffer@;
        if advance {
            RegionMap::Move(Direction::Right, 1).perform(buffer, options);
        }
        assert(edit_made_in_place(old(buffer)@, written, pieces, true));
    }
}

/// Types the character `key` in ascii mode into `buffer`: its bytes in
/// UTF-8 are inserted at each caret or, when overwriting, put in the place
/// of the byte there. The mode stays as it is.
pub fn transition_ascii_insertion(
    mode: Insert,
    key: char,
    buffer: &mut Buffer,
    options: &mut ViewOptions,
) -> (r: ModeTransition)
    requires
        old(buffer).wf(),
    ensures
        final(buffer).wf(),
        options_kept(*old(options), *final(options)),
        r.is_new_mode(Mode::Insert(mode)),
        ascii_typed(
            mode.mode,
            vstd::utf8::encode_utf8(seq![key]),
            old(buffer)@,
            old(options).bytes_per_line as int,
            final(buffer)@,
        ),
{
    proof {
        buffer.lemma_wf();
    }
    let inserted_bytes = utf8_bytes(key);
    match mode.mode {
        InsertionMode::Append | InsertionMode::Insert => {
            let delta = ops::insert(buffer.data(), buffer.selection(), inserted_bytes);
            apply_edit(buffer, options, delta, true, 0, 0);
        },
        InsertionMode::Overwrite => {
            if inserted_bytes.len() == 1 {
                write_over(buffer, options, inserted_bytes[0], true);
            } else {
                let delta = ops::change(buffer.data(), buffer.selection(), inserted_bytes);
                apply_edit(buffer, options, delta, true, 0, 0);
            }
        },
    }
    ModeTransition::new_mode(Mode::Insert(mode))
}

/// Types the character `key` in hex mode into `buffer`. A character that
/// is no hex digit is not handled.
pub fn transition_hex_insertion(
    mode: Insert,
    key: char,
    buffer: &mut Buffer,
    options: &mut ViewOptions,
) -> (r: ModeTransition)
    requires
        old(buffer).wf(),
    ensures
        final(buffer).wf(),
        options_kept(*old(options), *final(options)),
        match hex_value(key) {
            None => r == ModeTransition::NotHandled(Mode::Insert(mode)) && final(buffer)@ == old(
                buffer,
            )@,
            Some(digit) => hex_typed(
                mode.mode,
                mode.hex_half,
                digit,
                old(buffer)@,
                old(options).bytes_per_line as int,
                final(buffer)@,
            ) && r.is_new_mode(
                Mode::Insert(
                    Insert {
                        mode: mode.mode,
                        hex: true,
                        hex_half: match mode.hex_half {
                            None => Some(upper_half(digit)),
                            Some(_) => None,
                        },
                    },
                ),
            ),
        },
{
    proof {
        buffer.lemma_wf();
    }
    let digit = match hex_digit(key) {
        Some(digit) => digit,
        None => {
            return ModeTransition::not_handled(Mode::Insert(mode));
        },
    };
    match mode.hex_half {
        None => {
            let to_insert: u8 = digit * 16;
            match mode.mode {
                InsertionMode::Append | InsertionMode::Insert => {
                    let mut bytes: Vec<u8> = Vec::new();
                    bytes.push(to_insert);
                    assert(bytes@ =~= seq![to_insert]);
                    let delta = ops::insert(buffer.data(), buffer.selection(), bytes);
                    apply_edit(buffer, options, delta, true, -1, 0);
                },
                InsertionMode::Overwrite => {
                    write_over(buffer, options, to_insert, false);
                },
            }
            ModeTransition::new_mode(
                Mode::Insert(Insert { mode: mode.mode, hex: true, hex_half: Some(to_insert) }),
            )
        },
        Some(half) => {
            let to_insert: u8 = half | digit;
            match mode.mode {
                InsertionMode::Append | InsertionMode::Insert => {
                    let mut bytes: Vec<u8> = Vec::new();
                    bytes.push(to_insert);
                    assert(bytes@ =~= seq![to_insert]);
                    let delta = ops::change(buffer.data(), buffer.selection(), bytes);
                    apply_edit(buffer, options, delta, true, 0, 0);
                },
                InsertionMode::Overwrite => {
                    write_over(buffer, options, to_insert, true);
                },
            }
            ModeTransition::new_mode(
                Mode::Insert(Insert { mode: mode.mode, hex: true, hex_half: None }),
            )
        },
    }
}

impl Insert {
    /// The name of the mode: where the bytes go and how they are typed.
    pub open spec fn name_text(self) -> Seq<char> {
        match (self.mode, self.hex) {
            (InsertionMode::Insert, true) => "INSERT (hex)"@,
            (InsertionMode::Insert, false) => "INSERT (ascii)"@,
            (InsertionMode::Append, true) => "APPEND (hex)"@,
            (InsertionMode::Append, false) => "APPEND (ascii)"@,
            (InsertionMode::Overwrite, true) => "OVERWRITE (hex)"@,
            (InsertionMode::Overwrite, false) => "OVERWRITE (ascii)"@,
        }
    }

    pub fn name(&self) -> (r: String)
        ensures
            r@ == self.name_text(),
    {
        match (self.mode, self.hex) {
            (InsertionMode::Insert, true) => "INSERT (hex)".to_owned(),
            (InsertionMode::Insert, false) => "INSERT (ascii)".to_owned(),
            (InsertionMode::Append, true) => "APPEND (hex)".to_owned(),
            (InsertionMode::Append, false) => "APPEND (ascii)".to_owned(),
            (InsertionMode::Overwrite, true) => "OVERWRITE (hex)".to_owned(),
            (InsertionMode::Overwrite, false) => "OVERWRITE (ascii)".to_owned(),
        }
    }

    pub fn has_half_cursor(&self) -> (r: bool)
        ensures
            r == self.hex_half is Some,
    {
        self.hex_half.is_some()
    }

    /// The mode without a half-typed byte.
    pub open spec fn settled(self) -> Insert {
        Insert { mode: self.mode, hex: self.hex, hex_half: None }
    }

    /// What the mode makes of the current buffer on a key of its own, and
    /// the mode that follows.
    pub open spec fn acted(
        self,
        action: Action,
        before: BufferView,
        bytes_per_line: int,
        r: ModeTransition,
        after: BufferView,
    ) -> bool {
        let len = before.data.len() as int;
        let regions = before.selection.regions;
        match action {
            Action::Exit => after == before.committed() && r.is_new_mode(
                Mode::Normal(Normal::new_spec()),
            ),
            Action::InsertNull => edit_made(
                before,
                after,
                delta_pieces_of(ops::insert_edits(regions, seq![0u8]), len),
                true,
                0,
                0,
            ) && r.is_new_mode(Mode::Insert(self.settled())),
            Action::SwitchInputMode => after == before && r.is_new_mode(
                Mode::Insert(Insert { mode: self.mode, hex: !self.hex, hex_half: None }),
            ),
            Action::RemoveLast => if len == 0 {
                after == before && r.is_new_mode(Mode::Insert(self))
            } else if self.hex_half is Some {
                edit_made(
                    before,
                    after,
                    Some(crate::delta::edits_pieces(ops::delete_cursor_edits(regions, len), len)),
                    true,
                    0,
                    0,
                ) && r.is_new_mode(Mode::Insert(self.settled()))
            } else {
                edit_made(
                    before,
                    after,
                    Some(crate::delta::edits_pieces(ops::backspace_edits(regions), len)),
                    true,
                    0,
                    0,
                ) && r.is_new_mode(Mode::Insert(self))
            },
            Action::RemoveThis => if len == 0 {
                after == before && r.is_new_mode(Mode::Insert(self))
            } else {
                edit_made(
                    before,
                    after,
                    Some(crate::delta::edits_pieces(ops::delete_cursor_edits(regions, len), len)),
                    true,
                    0,
                    0,
                ) && r.is_new_mode(Mode::Insert(self.settled()))
            },
            Action::Move(direction) => r.is_new_mode(Mode::Insert(self.settled())) && match self.hex_half {
                None => after == RegionMap::Move(direction, 1).moved(before, bytes_per_line),
                Some(half) => exists|completed: BufferView| #[trigger]
                    hex_typed(self.mode, Some(half), 0, before, bytes_per_line, completed) && after
                        == RegionMap::MoveFromHalf(direction).moved(completed, bytes_per_line),
            },
        }
    }

    /// What the mode answers to an event. A key of the mode acts on the
    /// current buffer; a character with no modifier but shift is typed;
    /// anything else is not for this mode.
    pub open spec fn answers(
        self,
        event: Event,
        before: BuffersView,
        options_before: ViewOptions,
        r: ModeTransition,
        after: BuffersView,
    ) -> bool {
        let current = before.list[before.current];
        match bound_action(bindings(), event) {
            Some(action) => {
                &&& after.current == before.current
                &&& after.list == before.list.update(before.current, after.list[before.current])
                &&& self.acted(
                    action,
                    current,
                    options_before.bytes_per_line as int,
                    r,
                    after.list[before.current],
                )
            },
            None => match event {
                Event::Key(KeyEvent { code: KeyCode::Char(key), modifiers }) => if modifiers.at_most_shift() {
                    &&& after.current == before.current
                    &&& after.list == before.list.update(before.current, after.list[before.current])
                    &&& if self.hex {
                        match hex_value(key) {
                            None => r == ModeTransition::NotHandled(Mode::Insert(self)) && after
                                == before,
                            Some(digit) => hex_typed(
                                self.mode,
                                self.hex_half,
                                digit,
                                current,
                                options_before.bytes_per_line as int,
                                after.list[before.current],
                            ) && r.is_new_mode(
                                Mode::Insert(
                                    Insert {
                                        mode: self.mode,
                                        hex: true,
                                        hex_half: match self.hex_half {
                                            None => Some(upper_half(digit)),
                                            Some(_) => None,
                                        },
                                    },
                                ),
                            ),
                        }
                    } else {
                        ascii_typed(
                            self.mode,
                            vstd::utf8::encode_utf8(seq![key]),
                            current,
                            options_before.bytes_per_line as int,
                            after.list[before.current],
                        ) && r.is_new_mode(Mode::Insert(self))
                    }
                } else {
                    after == before && r == ModeTransition::NotHandled(Mode::Insert(self))
                },
                _ => after == before && r == ModeTransition::NotHandled(Mode::Insert(self)),
            },
        }
    }

    pub fn transition(self, evt: &Event, buffers: &mut Buffers, options: &mut ViewOptions) -> (r:
        ModeTransition)
        requires
            old(buffers).wf(),
        ensures
            final(buffers).wf(),
            layout_kept(*old(options), *final(options)),
            self.answers(*evt, old(buffers)@, *old(options), r, final(buffers)@),
    {
        let buffer = buffers.current_mut();
        proof {
            buffer.lemma_wf();
        }
        match default_maps().event_to_action(evt) {
            Some(action) => {
                let new_state = Insert { mode: self.mode, hex: self.hex, hex_half: None };
                match action {
                    Action::Exit => {
                        // The run of edits becomes one step to undo.
                        buffer.commit_delta();
                        ModeTransition::new_mode(Mode::Normal(Normal::new()))
                    },
                    Action::InsertNull => {
                        let mut inserted_bytes: Vec<u8> = Vec::new();
                        inserted_bytes.push(0);
                        assert(inserted_bytes@ =~= seq![0u8]);
                        let delta = ops::insert(buffer.data(), buffer.selection(), inserted_bytes);
                        apply_edit(buffer, options, delta, true, 0, 0);
                        ModeTransition::new_mode(Mode::Insert(new_state))
                    },
                    Action::SwitchInputMode => ModeTransition::new_mode(
                        Mode::Insert(Insert { mode: self.mode, hex: !self.hex, hex_half: None }),
                    ),
                    Action::RemoveLast => {
                        if buffer.data().is_empty() {
                            return ModeTransition::new_mode(Mode::Insert(self));
                        }
                        if self.hex_half.is_some() {
                            // The half-typed byte goes.
                            let delta = ops::delete_cursor(buffer.data(), buffer.selection());
                            apply_edit(buffer, options, Ok(delta), true, 0, 0);
                            ModeTransition::new_mode(Mode::Insert(new_state))
                        } else {
                            let delta = ops::backspace(buffer.data(), buffer.selection());
                            apply_edit(buffer, options, Ok(delta), true, 0, 0);
                            ModeTransition::new_mode(Mode::Insert(self))
                        }
                    },
                    Action::RemoveThis => {
                        if buffer.data().is_empty() {
                            return ModeTransition::new_mode(Mode::Insert(self));
                        }
                        let delta = ops::delete_cursor(buffer.data(), buffer.selection());
                        apply_edit(buffer, options, Ok(delta), true, 0, 0);
                        ModeTransition::new_mode(Mode::Insert(new_state))
                    },
                    Action::Move(direction) => {
                        match self.hex_half {
                            Some(_) => {
                                // The half-typed byte is completed with the
                                // digit 0 before the carets move.
                                transition_hex_insertion(self, '0', buffer, options);
                                RegionMap::MoveFromHalf(direction).perform(buffer, options);
                            },
                            None => {
                                RegionMap::Move(direction, 1).perform(buffer, options);
                            },
                        }
                        ModeTransition::new_mode(Mode::Insert(new_state))
                    },
                }
            },
            None => {
                match evt {
                    Event::Key(KeyEvent { code: KeyCode::Char(key), modifiers }) => {
                        if !modifiers.only_shift_or_none() {
                            return ModeTransition::not_handled(Mode::Insert(self));
                        }
                        if self.hex {
                            transition_hex_insertion(self, *key, buffer, options)
                        } else {
                            transition_ascii_insertion(self, *key, buffer, options)
                        }
                    },
                    _ => ModeTransition::not_handled(Mode::Insert(self)),
                }
            },
        }
    }
}

} // verus!
