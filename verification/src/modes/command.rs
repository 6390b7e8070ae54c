//! The prompt behind `:`, in which a command is typed, and the commands.
//! What a command has to read or write is left to the caller, who is asked
//! for it.

use crate::buffer::{BufferView, Buffers, BuffersView, DirtyBytes};
use crate::keymap::{bound_action, Event, KeyCode, KeyEvent, KeyMap};
use crate::modes::mode::{layout_kept, says, Mode, ModeTransition};
use crate::modes::normal::Normal;
use crate::modes::quitting::Quitting;
use crate::selection::int_min;
use crate::text::string_of;
use crate::view::view_options::ViewOptions;
use vstd::prelude::*;
use vstd::string::*;

verus! {

/// The line typed so far and the place of the cursor in it.
pub struct Command {
    pub command: Vec<char>,
    pub cursor: usize,
}

/// What a command asks the caller to do.
pub enum Request {
    /// Write the current buffer to `path`.
    Write { path: String },
    /// Write every buffer that has a path to its path, and then, with
    /// `quit`, end the editor.
    WriteAll { quit: bool },
    /// Make the buffer of the file at `path` the current one, opening the
    /// file if no buffer holds it.
    Edit { path: String },
}

/// What a key does in the prompt.
#[derive(Debug, PartialEq, Eq, Clone, Copy, Structural)]
pub enum Action {
    RemoveLast,
    RemoveThis,
    CursorLeft,
    CursorRight,
    Finish,
    Cancel,
}

/// The keys of the prompt.
pub open spec fn bindings() -> Seq<(KeyEvent, Action)> {
    seq![
        (KeyEvent::key(KeyCode::Backspace), Action::RemoveLast),
        (KeyEvent::key(KeyCode::Delete), Action::RemoveThis),
        (KeyEvent::key(KeyCode::Enter), Action::Finish),
        (KeyEvent::key(KeyCode::Esc), Action::Cancel),
        (KeyEvent::key(KeyCode::Left), Action::CursorLeft),
        (KeyEvent::key(KeyCode::Right), Action::CursorRight),
    ]
}

pub fn default_maps() -> (r: KeyMap<Action>)
    ensures
        r.maps@ == bindings(),
{
    let mut map = KeyMap::new();
    map.key(KeyCode::Backspace, Action::RemoveLast);
    map.key(KeyCode::Delete, Action::RemoveThis);
    map.key(KeyCode::Enter, Action::Finish);
    map.key(KeyCode::Esc, Action::Cancel);
    map.key(KeyCode::Left, Action::CursorLeft);
    map.key(KeyCode::Right, Action::CursorRight);
    assert(map.maps@ =~= bindings());
    map
}

/// The commands.
#[derive(Debug, PartialEq, Eq, Clone, Copy, Structural)]
pub enum CommandName {
    Quit,
    ForceQuit,
    Write,
    WriteQuit,
    WriteAll,
    Edit,
    DeleteBuffer,
    ForceDeleteBuffer,
}

/// The command that a name stands for.
pub open spec fn command_named(name: Seq<char>) -> Option<CommandName> {
    if name == "q"@ || name == "quit"@ {
        Some(CommandName::Quit)
    } else if name == "q!"@ || name == "quit!"@ {
        Some(CommandName::ForceQuit)
    } else if name == "w"@ || name == "write"@ {
        Some(CommandName::Write)
    } else if name == "wq"@ {
        Some(CommandName::WriteQuit)
    } else if name == "wa"@ || name == "write-all"@ {
        Some(CommandName::WriteAll)
    } else if name == "e"@ || name == "edit"@ {
        Some(CommandName::Edit)
    } else if name == "db"@ || name == "delete-buffer"@ {
        Some(CommandName::DeleteBuffer)
    } else if name == "db!"@ || name == "delete-buffer!"@ {
        Some(CommandName::ForceDeleteBuffer)
    } else {
        None
    }
}

/// Where the name of the command ends: at the first space among the first
/// `n` characters, or behind them.
pub open spec fn name_end(line: Seq<char>, n: int) -> int
    decreases n,
{
    if n <= 0 {
        0
    } else if name_end(line, n - 1) < n - 1 {
        name_end(line, n - 1)
    } else if line[n - 1] == ' ' {
        n - 1
    } else {
        n
    }
}

/// The name of the command in a line.
pub open spec fn name_of(line: Seq<char>) -> Seq<char> {
    line.subrange(0, name_end(line, line.len() as int))
}

/// The argument of the command in a line: what follows the space behind
/// the name.
pub open spec fn argument_of(line: Seq<char>) -> Seq<char> {
    let end = name_end(line, line.len() as int);
    if end < line.len() {
        line.subrange(end + 1, line.len() as int)
    } else {
        Seq::empty()
    }
}

/// Some buffer holds changes that were not written to its path.
pub open spec fn unsaved(buffers: BuffersView) -> bool {
    exists|i: int|
        0 <= i < buffers.list.len() && (#[trigger] buffers.list[i]).dirty
            && buffers.list[i].path is Some
}

/// Whether `chars` is the text `text`.
fn is_text(chars: &Vec<char>, text: &str) -> (r: bool)
    ensures
        r == (chars@ == text@),
{
    let len = text.unicode_len();
    if chars.len() != len {
        return false;
    }
    let mut i: usize = 0;
    while i < len
        invariant
            i <= len,
            len == text@.len(),
            chars@.len() == len,
            forall|k: int| 0 <= k < i ==> chars@[k] == text@[k],
        decreases len - i,
    {
        if chars[i] != text.get_char(i) {
            return false;
        }
        i += 1;
    }
    assert(chars@ =~= text@);
    true
}

/// The command that `name` stands for.
fn command_for(name: &Vec<char>) -> (r: Option<CommandName>)
    ensures
        r == command_named(name@),
{
    if is_text(name, "q") || is_text(name, "quit") {
        Some(CommandName::Quit)
    } else if is_text(name, "q!") || is_text(name, "quit!") {
        Some(CommandName::ForceQuit)
    } else if is_text(name, "w") || is_text(name, "write") {
        Some(CommandName::Write)
    } else if is_text(name, "wq") {
        Some(CommandName::WriteQuit)
    } else if is_text(name, "wa") || is_text(name, "write-all") {
        Some(CommandName::WriteAll)
    } else if is_text(name, "e") || is_text(name, "edit") {
        Some(CommandName::Edit)
    } else if is_text(name, "db") || is_text(name, "delete-buffer") {
        Some(CommandName::DeleteBuffer)
    } else if is_text(name, "db!") || is_text(name, "delete-buffer!") {
        Some(CommandName::ForceDeleteBuffer)
    } else {
        None
    }
}

/// Leads to normal mode with a message.
fn normal_with_info(options: &mut ViewOptions, info: String) -> (r: ModeTransition)
    ensures
        r.is_new_mode(Mode::Normal(Normal::new_spec())),
        layout_kept(*old(options), *final(options)),
        final(options).dirty == old(options).dirty,
        final(options).info == Some(info),
{
    options.info = Some(info);
    ModeTransition::new_mode(Mode::Normal(Normal::new()))
}

/// Ends the editor, unless a buffer holds changes that were not written to
/// its path.
pub fn quit(buffers: &mut Buffers, options: &mut ViewOptions) -> (r: ModeTransition)
    requires
        old(buffers).wf(),
    ensures
        final(buffers).wf(),
        final(buffers)@ == old(buffers)@,
        layout_kept(*old(options), *final(options)),
        if unsaved(old(buffers)@) {
            r.is_new_mode(Mode::Normal(Normal::new_spec())) && says(
                final(options).info,
                "unsaved changes! Run :wq or :q! instead."@,
            )
        } else {
            r.is_new_mode(Mode::Quitting(Quitting()))
        },
{
    let list = buffers.iter();
    let mut i: usize = 0;
    while i < list.len()
        invariant
            i <= list.len(),
            buffers.wf(),
            *buffers == *old(buffers),
            *options == *old(options),
            list@.len() == buffers@.list.len(),
            forall|k: int| 0 <= k < list@.len() ==> (#[trigger] list@[k])@ == buffers@.list[k],
            forall|k: int| 0 <= k < i ==> !((#[trigger] buffers@.list[k]).dirty
                && buffers@.list[k].path is Some),
        decreases list.len() - i,
    {
        let buffer = &list[i];
        let has_path = match buffer.path() {
            Some(_) => true,
            None => false,
        };
        if buffer.is_dirty() && has_path {
            assert(buffers@.list[i as int].dirty && buffers@.list[i as int].path is Some);
            return normal_with_info(options, "unsaved changes! Run :wq or :q! instead.".to_owned());
        }
        i += 1;
    }
    ModeTransition::new_mode(Mode::Quitting(Quitting()))
}

/// Ends the editor.
pub fn force_quit() -> (r: ModeTransition)
    ensures
        r.is_new_mode(Mode::Quitting(Quitting())),
{
    ModeTransition::new_mode(Mode::Quitting(Quitting()))
}

/// Asks for the current buffer to be written: to `filename` or, without
/// one, to the path of the buffer. A buffer without a path is not written.
pub fn write(buffers: &mut Buffers, options: &mut ViewOptions, filename: String) -> (r:
    ModeTransition)
    requires
        old(buffers).wf(),
    ensures
        final(buffers).wf(),
        final(buffers)@ == old(buffers)@,
        layout_kept(*old(options), *final(options)),
        if filename@.len() > 0 {
            r.asks_to_write(filename@)
        } else {
            match old(buffers)@.list[old(buffers)@.current].path {
                Some(own) => r.asks_to_write(own),
                None => r.is_new_mode(Mode::Normal(Normal::new_spec())) && says(
                    final(options).info,
                    "buffer has no path"@,
                ),
            }
        },
{
    if filename.as_str().unicode_len() > 0 {
        return ModeTransition::Perform(Request::Write { path: filename });
    }
    let own = match buffers.current().path() {
        Some(path) => Some(path.clone()),
        None => None,
    };
    match own {
        Some(path) => ModeTransition::Perform(Request::Write { path }),
        None => normal_with_info(options, "buffer has no path".to_owned()),
    }
}

/// Asks for every buffer that has a path to be written.
pub fn write_all() -> (r: ModeTransition)
    ensures
        r == ModeTransition::Perform(Request::WriteAll { quit: false }),
{
    ModeTransition::Perform(Request::WriteAll { quit: false })
}

/// Asks for every buffer that has a path to be written and the editor to
/// end.
pub fn write_quit() -> (r: ModeTransition)
    ensures
        r == ModeTransition::Perform(Request::WriteAll { quit: true }),
{
    ModeTransition::Perform(Request::WriteAll { quit: true })
}

/// Asks for the buffer of the file `filename` to become the current one.
pub fn edit(filename: String) -> (r: ModeTransition)
    ensures
        r.asks_to_edit(filename@),
{
    ModeTransition::Perform(Request::Edit { path: filename })
}

/// Drops the current buffer, unless it holds changes that were not written
/// to its path.
pub fn delete_buffer(buffers: &mut Buffers, options: &mut ViewOptions) -> (r: ModeTransition)
    requires
        old(buffers).wf(),
    ensures
        final(buffers).wf(),
        layout_kept(*old(options), *final(options)),
        r.is_new_mode(Mode::Normal(Normal::new_spec())),
        ({
            let current = old(buffers)@.list[old(buffers)@.current];
            if current.dirty && current.path is Some {
                final(buffers)@ == old(buffers)@ && says(
                    final(options).info,
                    "buffer is dirty, use :db! if you're sure"@,
                )
            } else {
                deleted(old(buffers)@, final(buffers)@)
            }
        }),
{
    let refuse = {
        let current = buffers.current();
        let has_path = match current.path() {
            Some(_) => true,
            None => false,
        };
        current.is_dirty() && has_path
    };
    if refuse {
        return normal_with_info(options, "buffer is dirty, use :db! if you're sure".to_owned());
    }
    force_delete_buffer(buffers, options)
}

/// `after` is `before` without the current buffer: the buffer before it is
/// the current one, or the first if there is none before it, and where no
/// buffer would be left there is a fresh, empty one.
pub open spec fn deleted(before: BuffersView, after: BuffersView) -> bool {
    &&& after.current == if before.current == 0 {
        0
    } else {
        before.current - 1
    }
    &&& if before.list.len() > 1 {
        after.list == before.list.remove(before.current)
    } else {
        after.list == seq![BufferView::fresh()]
    }
}

/// Drops the current buffer.
pub fn force_delete_buffer(buffers: &mut Buffers, options: &mut ViewOptions) -> (r: ModeTransition)
    requires
        old(buffers).wf(),
    ensures
        final(buffers).wf(),
        layout_kept(*old(options), *final(options)),
        final(options).info == old(options).info,
        r.is_new_mode(Mode::Normal(Normal::new_spec())),
        deleted(old(buffers)@, final(buffers)@),
{
    proof {
        buffers.lemma_wf();
    }
    buffers.delete_current();
    options.make_dirty(DirtyBytes::ChangeLength);
    ModeTransition::new_mode(Mode::Normal(Normal::new()))
}

/// What the prompt holds.
pub struct CommandView {
    pub line: Seq<char>,
    pub cursor: int,
}

impl CommandView {
    /// The cursor as the keys see it: inside the line or behind it.
    pub open spec fn place(self) -> int {
        int_min(self.cursor, self.line.len() as int)
    }

    /// What an editing key makes of the prompt; `None` for the keys that
    /// end it and for Backspace at the start, which changes nothing.
    pub open spec fn edited(self, action: Action) -> Option<CommandView> {
        let at = self.place();
        let done = CommandView { line: self.line, cursor: at };
        match action {
            Action::RemoveLast => if at != 0 {
                Some(CommandView { line: self.line.remove(at - 1), cursor: at - 1 })
            } else {
                None
            },
            Action::RemoveThis => Some(
                if at < self.line.len() {
                    CommandView { line: self.line.remove(at), cursor: at }
                } else {
                    done
                },
            ),
            Action::CursorLeft => Some(
                if at != 0 {
                    CommandView { line: self.line, cursor: at - 1 }
                } else {
                    done
                },
            ),
            Action::CursorRight => Some(
                if at < self.line.len() {
                    CommandView { line: self.line, cursor: at + 1 }
                } else {
                    done
                },
            ),
            Action::Cancel => None,
            Action::Finish => None,
        }
    }

    /// The prompt with `ch` typed at the cursor.
    pub open spec fn typed(self, ch: char) -> CommandView {
        CommandView { line: self.line.insert(self.place(), ch), cursor: self.place() + 1 }
    }
}

impl View for Command {
    type V = CommandView;

    open spec fn view(&self) -> CommandView {
        CommandView { line: self.command@, cursor: self.cursor as int }
    }
}

impl Command {
    /// An empty prompt.
    pub fn new() -> (r: Command)
        ensures
            r.command@ == Seq::<char>::empty(),
            r.cursor == 0,
    {
        Command { cursor: 0, command: Vec::new() }
    }

    pub fn name(&self) -> (r: String)
        ensures
            r@ == "COMMAND"@,
    {
        "COMMAND".to_owned()
    }

    /// The name of the command and its argument.
    fn parts(&self) -> (r: (Vec<char>, Vec<char>))
        ensures
            r.0@ == name_of(self.command@),
            r.1@ == argument_of(self.command@),
    {
        let mut end: usize = 0;
        while end < self.command.len() && self.command[end] != ' '
            invariant
                end <= self.command.len(),
                name_end(self.command@, end as int) == end,
            decreases self.command.len() - end,
        {
            end += 1;
        }
        proof {
            if end < self.command.len() {
                lemma_name_end(self.command@, end as int + 1, self.command@.len() as int);
            }
        }
        let mut name: Vec<char> = Vec::new();
        let mut i: usize = 0;
        while i < end
            invariant
                i <= end <= self.command.len(),
                name@ == self.command@.subrange(0, i as int),
            decreases end - i,
        {
            name.push(self.command[i]);
            assert(name@ =~= self.command@.subrange(0, i as int + 1));
            i += 1;
        }
        let mut rest: Vec<char> = Vec::new();
        if end < self.command.len() {
            let mut j: usize = end + 1;
            while j < self.command.len()
                invariant
                    end < j <= self.command.len(),
                    rest@ == self.command@.subrange(end as int + 1, j as int),
                decreases self.command.len() - j,
            {
                rest.push(self.command[j]);
                assert(rest@ =~= self.command@.subrange(end as int + 1, j as int + 1));
                j += 1;
            }
        }
        assert(rest@ =~= argument_of(self.command@));
        (name, rest)
    }

    /// What running the line does: a command that is known is run with
    /// the argument; for any other name normal mode follows with a
    /// message.
    pub open spec fn finished(
        self,
        before: BuffersView,
        r: ModeTransition,
        after: BuffersView,
        options_after: ViewOptions,
    ) -> bool {
        let name = name_of(self.command@);
        let argument = argument_of(self.command@);
        let normal = Mode::Normal(Normal::new_spec());
        let current = before.list[before.current];
        match command_named(name) {
            Some(CommandName::Quit) => after == before && if unsaved(before) {
                r.is_new_mode(normal)
            } else {
                r.is_new_mode(Mode::Quitting(Quitting()))
            },
            Some(CommandName::ForceQuit) => after == before && r.is_new_mode(
                Mode::Quitting(Quitting()),
            ),
            Some(CommandName::Write) => after == before && if argument.len() > 0 {
                r.asks_to_write(argument)
            } else {
                match current.path {
                    Some(own) => r.asks_to_write(own),
                    None => r.is_new_mode(normal),
                }
            },
            Some(CommandName::WriteQuit) => after == before && r == ModeTransition::Perform(
                Request::WriteAll { quit: true },
            ),
            Some(CommandName::WriteAll) => after == before && r == ModeTransition::Perform(
                Request::WriteAll { quit: false },
            ),
            Some(CommandName::Edit) => after == before && r.asks_to_edit(argument),
            Some(CommandName::DeleteBuffer) => r.is_new_mode(normal) && if current.dirty
                && current.path is Some {
                after == before
            } else {
                deleted(before, after)
            },
            Some(CommandName::ForceDeleteBuffer) => r.is_new_mode(normal) && deleted(before, after),
            None => after == before && r.is_new_mode(normal) && says(
                options_after.info,
                "Unknown command "@ + name,
            ),
        }
    }

    /// Runs the line.
    fn finish(&self, buffers: &mut Buffers, options: &mut ViewOptions) -> (r: ModeTransition)
        requires
            old(buffers).wf(),
        ensures
            final(buffers).wf(),
            layout_kept(*old(options), *final(options)),
            self.finished(old(buffers)@, r, final(buffers)@, *final(options)),
    {
        let (name, rest) = self.parts();
        match command_for(&name) {
            Some(CommandName::Quit) => quit(buffers, options),
            Some(CommandName::ForceQuit) => force_quit(),
            Some(CommandName::Write) => write(buffers, options, string_of(&rest)),
            Some(CommandName::WriteQuit) => write_quit(),
            Some(CommandName::WriteAll) => write_all(),
            Some(CommandName::Edit) => edit(string_of(&rest)),
            Some(CommandName::DeleteBuffer) => delete_buffer(buffers, options),
            Some(CommandName::ForceDeleteBuffer) => force_delete_buffer(buffers, options),
            None => {
                let mut info = String::from_str("Unknown command ");
                let shown = string_of(&name);
                info.append(shown.as_str());
                normal_with_info(options, info)
            },
        }
    }

    /// What an editing key makes of the prompt.
    fn edit_line(self, action: Action) -> (r: Option<Command>)
        ensures
            match r {
                Some(command) => self@.edited(action) == Some(command@),
                None => self@.edited(action) is None,
            },
    {
        let mut command = self.command;
        let mut cursor: usize = if self.cursor < command.len() {
            self.cursor
        } else {
            command.len()
        };
        match action {
            Action::RemoveLast => {
                if cursor != 0 {
                    command.remove(cursor - 1);
                    cursor -= 1;
                } else {
                    return None;
                }
            },
            Action::RemoveThis => {
                if cursor < command.len() {
                    command.remove(cursor);
                }
            },
            Action::CursorLeft => {
                if cursor != 0 {
                    cursor -= 1;
                }
            },
            Action::CursorRight => {
                if cursor < command.len() {
                    cursor += 1;
                }
            },
            Action::Cancel => {
                return None;
            },
            Action::Finish => {
                return None;
            },
        }
        Some(Command { command, cursor })
    }

    /// What the prompt answers to an event. An editing key changes the
    /// line; Esc leads back to normal mode; Enter runs the line; a
    /// character with no modifier but shift is typed into the line;
    /// anything else is not for this mode.
    pub open spec fn answers(
        self,
        event: Event,
        before: BuffersView,
        r: ModeTransition,
        after: BuffersView,
        options_after: ViewOptions,
    ) -> bool {
        match bound_action(bindings(), event) {
            Some(Action::Finish) => self.finished(before, r, after, options_after),
            Some(Action::Cancel) => after == before && r.is_new_mode(
                Mode::Normal(Normal::new_spec()),
            ),
            Some(action) => after == before && r.is_command(
                match self@.edited(action) {
                    Some(next) => next,
                    None => self@,
                },
            ),
            None => after == before && match event {
                Event::Key(KeyEvent { code: KeyCode::Char(ch), modifiers }) => if modifiers.at_most_shift()
                    && self.command@.len() < usize::MAX {
                    r.is_command(self@.typed(ch))
                } else {
                    r.hands_back_command(self@)
                },
                _ => r.hands_back_command(self@),
            },
        }
    }

    pub fn transition(self, evt: &Event, buffers: &mut Buffers, options: &mut ViewOptions) -> (r:
        ModeTransition)
        requires
            old(buffers).wf(),
        ensures
            final(buffers).wf(),
            layout_kept(*old(options), *final(options)),
            self.answers(*evt, old(buffers)@, r, final(buffers)@, *final(options)),
    {
        match default_maps().event_to_action(evt) {
            Some(Action::Cancel) => ModeTransition::new_mode(Mode::Normal(Normal::new())),
            Some(Action::Finish) => self.finish(buffers, options),
            Some(action) => {
                let kept = Command { command: self.command.clone(), cursor: self.cursor };
                assert(kept.command@ =~= self.command@);
                match self.edit_line(action) {
                    Some(command) => ModeTransition::new_mode(Mode::Command(command)),
                    None => ModeTransition::new_mode(Mode::Command(kept)),
                }
            },
            None => {
                match evt {
                    Event::Key(KeyEvent { code: KeyCode::Char(ch), modifiers }) => {
                        if !modifiers.only_shift_or_none() || self.command.len() == usize::MAX {
                            return ModeTransition::not_handled(Mode::Command(self));
                        }
                        let mut command = self.command;
                        let cursor: usize = if self.cursor < command.len() {
                            self.cursor
                        } else {
                            command.len()
                        };
                        command.insert(cursor, *ch);
                        ModeTransition::new_mode(
                            Mode::Command(Command { command, cursor: cursor + 1 }),
                        )
                    },
                    _ => ModeTransition::not_handled(Mode::Command(self)),
                }
            },
        }
    }
}

/// Once a space ends the name, the name stays as it is.
pub proof fn lemma_name_end(line: Seq<char>, k: int, n: int)
    requires
        0 < k <= n,
        name_end(line, k) < k,
    ensures
        name_end(line, n) == name_end(line, k),
    decreases n - k,
{
    if k < n {
        lemma_name_end(line, k, n - 1);
    }
}

} // verus!
