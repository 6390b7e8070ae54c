//! Normal mode: the keys move, change and replace the selection, edit the
//! document, and lead to the other modes. A count typed in front of a key
//! says how often, how far or which.

use crate::buffer::{yanked, Buffer, BufferView, Buffers, BuffersView};
use crate::cmd_count;
use crate::keymap::{bound_action, Event, KeyCode, KeyEvent, KeyMap};
use crate::modes::collapse::Collapse;
use crate::modes::command::{Command, CommandView};
use crate::modes::insert::{Insert, InsertionMode};
use crate::modes::jumpto::JumpTo;
use crate::modes::mode::{
    apply_edit, delta_pieces_of, edit_made, layout_kept, says, Mode, ModeTransition, RegionMap,
};
use crate::modes::replace::Replace;
use crate::modes::search::{Search, SearchAcceptor, SearchView};
use crate::modes::split::Split;
use crate::operations as ops;
use crate::operations::byte_views;
use crate::selection::{int_min, with_main, Direction, SelRegion, SelectionView};
use crate::text::{decimal, digits, hexadecimal};
use crate::view::view_options::ViewOptions;
use vstd::prelude::*;
use vstd::string::*;

verus! {

/// The mode in which the editor starts, with the count typed so far.
#[derive(Debug, PartialEq, Eq, Clone, Copy, Structural)]
pub struct Normal {
    pub count_state: cmd_count::State,
}

/// What a key does in normal mode.
#[derive(Debug, PartialEq, Eq, Clone, Copy, Structural)]
pub enum Action {
    Move(Direction),
    Extend(Direction),
    SplitMode,
    JumpToMode,
    ExtendToMode,
    CollapseMode { hex: bool },
    CommandMode,
    SwapCaret,
    CollapseSelection,
    Delete { register: char },
    Yank { register: char },
    Paste { after: bool, register: char },
    Change { hex: bool, register: char },
    Insert { hex: bool },
    Append { hex: bool },
    RemoveMain,
    RetainMain,
    SelectPrev,
    SelectNext,
    SelectAll,
    ReplaceMode { hex: bool },
    Measure,
    Undo,
    Redo,
}

/// The keys of normal mode.
pub open spec fn bindings() -> Seq<(KeyEvent, Action)> {
    seq![
        (KeyEvent::plain('h'), Action::Move(Direction::Left)),
        (KeyEvent::key(KeyCode::Left), Action::Move(Direction::Left)),
        (KeyEvent::plain('j'), Action::Move(Direction::Down)),
        (KeyEvent::key(KeyCode::Down), Action::Move(Direction::Down)),
        (KeyEvent::plain('k'), Action::Move(Direction::Up)),
        (KeyEvent::key(KeyCode::Up), Action::Move(Direction::Up)),
        (KeyEvent::plain('l'), Action::Move(Direction::Right)),
        (KeyEvent::key(KeyCode::Right), Action::Move(Direction::Right)),
        (KeyEvent::plain('H'), Action::Extend(Direction::Left)),
        (KeyEvent::plain('J'), Action::Extend(Direction::Down)),
        (KeyEvent::plain('K'), Action::Extend(Direction::Up)),
        (KeyEvent::plain('L'), Action::Extend(Direction::Right)),
        (KeyEvent::plain('g'), Action::JumpToMode),
        (KeyEvent::plain('G'), Action::ExtendToMode),
        (KeyEvent::alt('s'), Action::SplitMode),
        (KeyEvent::plain(':'), Action::CommandMode),
        (KeyEvent::plain(';'), Action::CollapseSelection),
        (KeyEvent::alt(';'), Action::SwapCaret),
        (KeyEvent::plain('%'), Action::SelectAll),
        (KeyEvent::plain(' '), Action::RetainMain),
        (KeyEvent::alt(' '), Action::RemoveMain),
        (KeyEvent::plain('('), Action::SelectPrev),
        (KeyEvent::plain(')'), Action::SelectNext),
        (KeyEvent::plain('M'), Action::Measure),
        (KeyEvent::plain('u'), Action::Undo),
        (KeyEvent::plain('U'), Action::Redo),
        (KeyEvent::plain('p'), Action::Paste { after: true, register: '"' }),
        (KeyEvent::plain('P'), Action::Paste { after: false, register: '"' }),
        (KeyEvent::plain('d'), Action::Delete { register: '"' }),
        (KeyEvent::plain('y'), Action::Yank { register: '"' }),
        (KeyEvent::plain('c'), Action::Change { hex: false, register: '"' }),
        (KeyEvent::plain('C'), Action::Change { hex: true, register: '"' }),
        (KeyEvent::plain('i'), Action::Insert { hex: false }),
        (KeyEvent::plain('I'), Action::Insert { hex: true }),
        (KeyEvent::plain('a'), Action::Append { hex: false }),
        (KeyEvent::plain('A'), Action::Append { hex: true }),
        (KeyEvent::plain('r'), Action::ReplaceMode { hex: false }),
        (KeyEvent::plain('R'), Action::ReplaceMode { hex: true }),
        (KeyEvent::plain('s'), Action::CollapseMode { hex: false }),
        (KeyEvent::plain('S'), Action::CollapseMode { hex: true }),
    ]
}

pub fn default_maps() -> (r: KeyMap<Action>)
    ensures
        r.maps@ == bindings(),
{
    let mut map = KeyMap::new();
    map.plain('h', Action::Move(Direction::Left));
    map.key(KeyCode::Left, Action::Move(Direction::Left));
    map.plain('j', Action::Move(Direction::Down));
    map.key(KeyCode::Down, Action::Move(Direction::Down));
    map.plain('k', Action::Move(Direction::Up));
    map.key(KeyCode::Up, Action::Move(Direction::Up));
    map.plain('l', Action::Move(Direction::Right));
    map.key(KeyCode::Right, Action::Move(Direction::Right));
    map.plain('H', Action::Extend(Direction::Left));
    map.plain('J', Action::Extend(Direction::Down));
    map.plain('K', Action::Extend(Direction::Up));
    map.plain('L', Action::Extend(Direction::Right));
    map.plain('g', Action::JumpToMode);
    map.plain('G', Action::ExtendToMode);
    map.alt('s', Action::SplitMode);
    map.plain(':', Action::CommandMode);
    map.plain(';', Action::CollapseSelection);
    map.alt(';', Action::SwapCaret);
    map.plain('%', Action::SelectAll);
    map.plain(' ', Action::RetainMain);
    map.alt(' ', Action::RemoveMain);
    map.plain('(', Action::SelectPrev);
    map.plain(')', Action::SelectNext);
    map.plain('M', Action::Measure);
    map.plain('u', Action::Undo);
    map.plain('U', Action::Redo);
    map.plain('p', Action::Paste { after: true, register: '"' });
    map.plain('P', Action::Paste { after: false, register: '"' });
    map.plain('d', Action::Delete { register: '"' });
    map.plain('y', Action::Yank { register: '"' });
    map.plain('c', Action::Change { hex: false, register: '"' });
    map.plain('C', Action::Change { hex: true, register: '"' });
    map.plain('i', Action::Insert { hex: false });
    map.plain('I', Action::Insert { hex: true });
    map.plain('a', Action::Append { hex: false });
    map.plain('A', Action::Append { hex: true });
    map.plain('r', Action::ReplaceMode { hex: false });
    map.plain('R', Action::ReplaceMode { hex: true });
    map.plain('s', Action::CollapseMode { hex: false });
    map.plain('S', Action::CollapseMode { hex: true });
    assert(map.maps@ =~= bindings());
    map
}

/// The buffer with the selection yanked into the register `reg`.
pub open spec fn yanked_into(b: BufferView, reg: char) -> BufferView {
    BufferView {
        registers: b.registers.insert(reg as u32, yanked(b.data, b.selection.regions)),
        ..b
    }
}

/// What a paste takes from the register `reg`: its contents, or one empty
/// entry where the register was never filled or holds nothing.
pub open spec fn paste_source(b: BufferView, reg: char) -> Seq<Seq<u8>> {
    if b.registers.contains_key(reg as u32) && b.registers[reg as u32].len() > 0 {
        b.registers[reg as u32]
    } else {
        seq![Seq::<u8>::empty()]
    }
}

/// The buffer without the region at `index`, counted round the selection;
/// the only region stays.
pub open spec fn without_region(b: BufferView, index: int) -> BufferView {
    let n = b.selection.regions.len() as int;
    if n == 1 {
        b
    } else {
        let main = int_min(n - 2, b.selection.main);
        BufferView {
            selection: SelectionView {
                regions: with_main(b.selection.regions.remove(index % n), main),
                main,
            },
            ..b
        }
    }
}

/// The buffer with only the region at `index`, counted round the
/// selection.
pub open spec fn with_only_region(b: BufferView, index: int) -> BufferView {
    let n = b.selection.regions.len() as int;
    BufferView {
        selection: SelectionView {
            regions: seq![b.selection.regions[index % n].flagged(true)],
            main: 0,
        },
        ..b
    }
}

/// The buffer with the region at `main` as the main one.
pub open spec fn with_main_at(b: BufferView, main: int) -> BufferView {
    BufferView {
        selection: SelectionView { regions: with_main(b.selection.regions, main), main },
        ..b
    }
}

/// The buffer with the whole document selected.
pub open spec fn with_all_selected(b: BufferView) -> BufferView {
    BufferView {
        selection: SelectionView {
            regions: seq![
                SelRegion {
                    caret: if b.data.len() == 0 {
                        0
                    } else {
                        (b.data.len() - 1) as usize
                    },
                    tail: 0,
                    main: true,
                },
            ],
            main: 0,
        },
        ..b
    }
}

/// What measuring a region of `len` bytes says.
pub open spec fn measure_text(len: int) -> Seq<char> {
    digits(len, 10) + " = 0x"@ + digits(len, 16) + " bytes"@
}

impl Normal {
    pub open spec fn new_spec() -> Normal {
        Normal { count_state: cmd_count::State::NoCount }
    }

    pub fn new() -> (r: Normal)
        ensures
            r == Normal::new_spec(),
    {
        Normal { count_state: cmd_count::State::NoCount }
    }

    pub fn name(&self) -> (r: String)
        ensures
            r@ == "NORMAL"@ + self.count_state.text(),
    {
        let mut name = String::from_str("NORMAL");
        let count = self.count_state.to_string();
        name.append(count.as_str());
        name
    }

    /// What normal mode makes of the current buffer on one of its keys,
    /// the mode that follows, and the message if there is one.
    pub open spec fn acted(
        self,
        action: Action,
        before: BufferView,
        bytes_per_line: int,
        r: ModeTransition,
        after: BufferView,
        options_after: ViewOptions,
    ) -> bool {
        let count = self.count_state.spec_to_count();
        let fresh = Mode::Normal(Normal::new_spec());
        let same = Mode::Normal(self);
        let start = before.committed();
        let len = start.data.len() as int;
        match action {
            Action::JumpToMode => match self.count_state {
                cmd_count::State::NoCount => after == before && r.is_new_mode(
                    Mode::JumpTo(JumpTo { extend: false }),
                ),
                cmd_count::State::Typed { count: offset, .. } => after == RegionMap::JumpTo(
                    offset,
                ).moved(before, bytes_per_line) && r.is_new_mode(fresh),
            },
            Action::ExtendToMode => match self.count_state {
                cmd_count::State::NoCount => after == before && r.is_new_mode(
                    Mode::JumpTo(JumpTo { extend: true }),
                ),
                cmd_count::State::Typed { count: offset, .. } => after == RegionMap::ExtendTo(
                    offset,
                ).moved(before, bytes_per_line) && r.is_new_mode(fresh),
            },
            Action::SplitMode => after == before && r.is_new_mode(Mode::Split(Split::new_spec())),
            Action::Insert { hex } => after == RegionMap::ToBackward.moved(before, bytes_per_line)
                && r.is_new_mode(
                Mode::Insert(Insert { mode: InsertionMode::Insert, hex, hex_half: None }),
            ),
            Action::Append { hex } => after == RegionMap::Append.moved(before, bytes_per_line)
                && r.is_new_mode(
                Mode::Insert(Insert { mode: InsertionMode::Append, hex, hex_half: None }),
            ),
            Action::ReplaceMode { hex } => after == before && r.is_new_mode(
                Mode::Replace(Replace { hex, hex_half: None }),
            ),
            Action::Move(direction) => after == RegionMap::Move(direction, count).moved(
                before,
                bytes_per_line,
            ) && r.is_new_mode(fresh),
            Action::Extend(direction) => after == RegionMap::Extend(direction, count).moved(
                before,
                bytes_per_line,
            ) && r.is_new_mode(fresh),
            Action::SwapCaret => after == RegionMap::SwapCaret.moved(before, bytes_per_line)
                && r.is_new_mode(same),
            Action::CollapseSelection => after == RegionMap::Collapse.moved(before, bytes_per_line)
                && r.is_new_mode(same),
            Action::Delete { register } => {
                let filled = yanked_into(start, register);
                &&& r.is_new_mode(same)
                &&& if len == 0 {
                    after == filled
                } else {
                    edit_made(
                        filled,
                        after,
                        Some(
                            crate::delta::edits_pieces(
                                ops::deletion_edits(start.selection.regions, len),
                                len,
                            ),
                        ),
                        false,
                        0,
                        0,
                    )
                }
            },
            Action::Change { hex, register } => after == yanked_into(before, register)
                && r.is_new_mode(
                Mode::Insert(Insert { mode: InsertionMode::Overwrite, hex, hex_half: None }),
            ),
            Action::Yank { register } => after == yanked_into(before, register) && r.is_new_mode(
                same,
            ),
            Action::Paste { after: behind, register } => edit_made(
                start,
                after,
                delta_pieces_of(
                    ops::paste_edits(
                        start.selection.regions,
                        len,
                        paste_source(start, register),
                        behind,
                        count as int,
                    ),
                    len,
                ),
                false,
                0,
                0,
            ) && r.is_new_mode(same),
            Action::RemoveMain => if self.count_state is Typed && count > 0 {
                after == without_region(before, count - 1) && r.is_new_mode(fresh)
            } else {
                after == without_region(before, before.selection.main) && r.is_new_mode(same)
            },
            Action::RetainMain => if self.count_state is Typed && count > 0 {
                after == with_only_region(before, count - 1) && r.is_new_mode(fresh)
            } else {
                after == with_only_region(before, before.selection.main) && r.is_new_mode(same)
            },
            Action::SelectNext => after == with_main_at(
                before,
                (before.selection.main + count) % (before.selection.regions.len() as int),
            ) && r.is_new_mode(fresh),
            Action::SelectPrev => after == with_main_at(
                before,
                (before.selection.main + before.selection.regions.len() - (count as int) % (
                before.selection.regions.len() as int)) % (before.selection.regions.len() as int),
            ) && r.is_new_mode(fresh),
            Action::SelectAll => after == with_all_selected(before) && r.is_new_mode(same),
            Action::CollapseMode { hex } => after == before && r.is_search(
                SearchView {
                    pieces: Seq::empty(),
                    cursor: 0,
                    hex,
                    hex_half: None,
                    next: SearchAcceptor::Collapse(Collapse()),
                },
            ),
            Action::Measure => after == before && r.is_new_mode(fresh) && says(
                options_after.info,
                measure_text(before.selection.regions[before.selection.main].spec_len()),
            ),
            Action::CommandMode => after == before && r.is_command(
                CommandView { line: Seq::empty(), cursor: 0 },
            ),
            Action::Undo => after == start.undone() && r.is_new_mode(fresh) && (
            start.history.undo.len() == 0 ==> says(options_after.info, "nothing left to undo"@)),
            Action::Redo => after == start.redone() && r.is_new_mode(fresh) && (
            start.history.redo.len() == 0 ==> says(options_after.info, "nothing left to redo"@)),
        }
    }

    /// What normal mode answers to an event. A key of the count changes the
    /// count; a key of the mode acts on the current buffer; anything else
    /// is not for this mode.
    pub open spec fn answers(
        self,
        event: Event,
        before: BuffersView,
        options_before: ViewOptions,
        r: ModeTransition,
        after: BuffersView,
        options_after: ViewOptions,
    ) -> bool {
        match self.count_state.after(event) {
            cmd_count::Transition::Update(count_state) => after == before && r.is_new_mode(
                Mode::Normal(Normal { count_state }),
            ),
            cmd_count::Transition::NotHandled => match bound_action(bindings(), event) {
                Some(action) => {
                    &&& after.current == before.current
                    &&& after.list == before.list.update(before.current, after.list[before.current])
                    &&& self.acted(
                        action,
                        before.list[before.current],
                        options_before.bytes_per_line as int,
                        r,
                        after.list[before.current],
                        options_after,
                    )
                },
                None => after == before && r == ModeTransition::NotHandled(Mode::Normal(self)),
            },
        }
    }

    /// Acts on `buffer` as `action` says.
    fn act(self, action: Action, buffer: &mut Buffer, options: &mut ViewOptions) -> (r:
        ModeTransition)
        requires
            old(buffer).wf(),
        ensures
            final(buffer).wf(),
            layout_kept(*old(options), *final(options)),
            self.acted(
                action,
                old(buffer)@,
                old(options).bytes_per_line as int,
                r,
                final(buffer)@,
                *final(options),
            ),
    {
        proof {
            buffer.lemma_wf();
        }
        let count = self.count_state.to_count();
        match action {
            Action::JumpToMode => match self.count_state {
                cmd_count::State::NoCount => ModeTransition::new_mode(
                    Mode::JumpTo(JumpTo { extend: false }),
                ),
                cmd_count::State::Typed { count: offset, .. } => {
                    RegionMap::JumpTo(offset).perform(buffer, options);
                    ModeTransition::new_mode(Mode::Normal(Normal::new()))
                },
            },
            Action::ExtendToMode => match self.count_state {
                cmd_count::State::NoCount => ModeTransition::new_mode(
                    Mode::JumpTo(JumpTo { extend: true }),
                ),
                cmd_count::State::Typed { count: offset, .. } => {
                    RegionMap::ExtendTo(offset).perform(buffer, options);
                    ModeTransition::new_mode(Mode::Normal(Normal::new()))
                },
            },
            Action::SplitMode => ModeTransition::new_mode(Mode::Split(Split::new())),
            Action::Insert { hex } => {
                RegionMap::ToBackward.perform(buffer, options);
                ModeTransition::new_mode(
                    Mode::Insert(Insert { mode: InsertionMode::Insert, hex, hex_half: None }),
                )
            },
            Action::Append { hex } => {
                RegionMap::Append.perform(buffer, options);
                ModeTransition::new_mode(
                    Mode::Insert(Insert { mode: InsertionMode::Append, hex, hex_half: None }),
                )
            },
            Action::ReplaceMode { hex } => ModeTransition::new_mode(
                Mode::Replace(Replace { hex, hex_half: None }),
            ),
            Action::Move(direction) => {
                RegionMap::Move(direction, count).perform(buffer, options);
                ModeTransition::new_mode(Mode::Normal(Normal::new()))
            },
            Action::Extend(direction) => {
                RegionMap::Extend(direction, count).perform(buffer, options);
                ModeTransition::new_mode(Mode::Normal(Normal::new()))
            },
            Action::SwapCaret => {
                RegionMap::SwapCaret.perform(buffer, options);
                ModeTransition::new_mode(Mode::Normal(self))
            },
            Action::CollapseSelection => {
                RegionMap::Collapse.perform(buffer, options);
                ModeTransition::new_mode(Mode::Normal(self))
            },
            Action::Delete { register } => {
                Self::delete_selection(buffer, options, register);
                ModeTransition::new_mode(Mode::Normal(self))
            },
            Action::Change { hex, register } => {
                buffer.yank_selections(register);
                ModeTransition::new_mode(
                    Mode::Insert(Insert { mode: InsertionMode::Overwrite, hex, hex_half: None }),
                )
            },
            Action::Yank { register } => {
                buffer.yank_selections(register);
                ModeTransition::new_mode(Mode::Normal(self))
            },
            Action::Paste { register, after } => {
                buffer.commit_delta();
                proof {
                    buffer.lemma_wf();
                }
                let mut nothing: Vec<Vec<u8>> = Vec::new();
                nothing.push(Vec::new());
                assert(byte_views(nothing@) =~= seq![Seq::<u8>::empty()]);
                let delta = match buffer.register(register) {
                    Some(contents) => {
                        if contents.len() > 0 {
                            ops::paste(buffer.data(), buffer.selection(), contents, after, count)
                        } else {
                            ops::paste(buffer.data(), buffer.selection(), &nothing, after, count)
                        }
                    },
                    None => ops::paste(buffer.data(), buffer.selection(), &nothing, after, count),
                };
                apply_edit(buffer, options, delta, false, 0, 0);
                ModeTransition::new_mode(Mode::Normal(self))
            },
            // The regions are counted from 1 where a count names one.
            Action::RemoveMain => {
                let named = match self.count_state {
                    cmd_count::State::Typed { count, .. } => count > 0,
                    cmd_count::State::NoCount => false,
                };
                if named {
                    options.make_dirty(buffer.remove_selection(count - 1));
                    ModeTransition::new_mode(Mode::Normal(Normal::new()))
                } else {
                    let main = buffer.selection().main_index();
                    options.make_dirty(buffer.remove_selection(main));
                    ModeTransition::new_mode(Mode::Normal(self))
                }
            },
            Action::RetainMain => {
                let named = match self.count_state {
                    cmd_count::State::Typed { count, .. } => count > 0,
                    cmd_count::State::NoCount => false,
                };
                if named {
                    options.make_dirty(buffer.retain_selection(count - 1));
                    ModeTransition::new_mode(Mode::Normal(Normal::new()))
                } else {
                    let main = buffer.selection().main_index();
                    options.make_dirty(buffer.retain_selection(main));
                    ModeTransition::new_mode(Mode::Normal(self))
                }
            },
            Action::SelectNext => {
                options.make_dirty(buffer.select_next(count));
                ModeTransition::new_mode(Mode::Normal(Normal::new()))
            },
            Action::SelectPrev => {
                options.make_dirty(buffer.select_prev(count));
                ModeTransition::new_mode(Mode::Normal(Normal::new()))
            },
            Action::SelectAll => {
                options.make_dirty(buffer.select_all());
                ModeTransition::new_mode(Mode::Normal(self))
            },
            Action::CollapseMode { hex } => ModeTransition::new_mode(
                Mode::Search(Search::new(SearchAcceptor::Collapse(Collapse()), hex)),
            ),
            Action::Measure => {
                let main = buffer.selection().main();
                assert(main.bounded(buffer@.data.len() as int));
                let len = main.len();
                let mut text = decimal(len);
                text.append(" = 0x");
                let hex = hexadecimal(len);
                text.append(hex.as_str());
                text.append(" bytes");
                options.info = Some(text);
                ModeTransition::new_mode(Mode::Normal(Normal::new()))
            },
            Action::CommandMode => ModeTransition::new_mode(Mode::Command(Command::new())),
            Action::Undo => {
                buffer.commit_delta();
                match buffer.perform_undo() {
                    Some(dirty) => {
                        options.make_dirty(dirty);
                    },
                    None => {
                        options.info = Some("nothing left to undo".to_owned());
                    },
                }
                ModeTransition::new_mode(Mode::Normal(Normal::new()))
            },
            Action::Redo => {
                buffer.commit_delta();
                match buffer.perform_redo() {
                    Some(dirty) => {
                        options.make_dirty(dirty);
                    },
                    None => {
                        options.info = Some("nothing left to redo".to_owned());
                    },
                }
                ModeTransition::new_mode(Mode::Normal(Normal::new()))
            },
        }
    }

    /// Yanks the selection into `register` and deletes it, as one step to
    /// undo.
    fn delete_selection(buffer: &mut Buffer, options: &mut ViewOptions, register: char)
        requires
            old(buffer).wf(),
        ensures
            final(buffer).wf(),
            layout_kept(*old(options), *final(options)),
            final(options).info == old(options).info,
            ({
                let start = old(buffer)@.committed();
                let len = start.data.len() as int;
                let filled = yanked_into(start, register);
                if len == 0 {
                    final(buffer)@ == filled
                } else {
                    edit_made(
                        filled,
                        final(buffer)@,
                        Some(
                            crate::delta::edits_pieces(
                                ops::deletion_edits(start.selection.regions, len),
                                len,
                            ),
                        ),
                        false,
                        0,
                        0,
                    )
                }
            }),
    {
        buffer.commit_delta();
        buffer.yank_selections(register);
        proof {
            buffer.lemma_wf();
        }
        if !buffer.data().is_empty() {
            let delta = ops::deletion(buffer.data(), buffer.selection());
            apply_edit(buffer, options, Ok(delta), false, 0, 0);
        }
    }

    pub fn transition(self, event: &Event, buffers: &mut Buffers, options: &mut ViewOptions) -> (r:
        ModeTransition)
        requires
            old(buffers).wf(),
        ensures
            final(buffers).wf(),
            layout_kept(*old(options), *final(options)),
            self.answers(
                *event,
                old(buffers)@,
                *old(options),
                r,
                final(buffers)@,
                *final(options),
            ),
    {
        match self.count_state.transition(event) {
            cmd_count::Transition::Update(new_state) => {
                return ModeTransition::new_mode(Mode::Normal(Normal { count_state: new_state }));
            },
            cmd_count::Transition::NotHandled => {},
        }
        match default_maps().event_to_action(event) {
            Some(action) => {
                let buffer = buffers.current_mut();
                self.act(action, buffer, options)
            },
            None => ModeTransition::not_handled(Mode::Normal(self)),
        }
    }
}

} // verus!
