//! What lies between the modes and the screen: the stack of modes that the
//! events are handed to, what is visible of the document, and how far the
//! view moves to keep the main caret in sight.

use crate::buffer::{Buffers, BuffersView, ByteInterval, DirtyBytes};
use crate::keymap::Event;
use crate::modes::command::Request;
use crate::modes::mode::{layout_kept, Mode, ModeTransition};
use crate::modes::normal::Normal;
use crate::modes::quitting::Quitting;
use crate::buffer::OverflowSelectionStyle;
use crate::selection::{sorted_disjoint, SelRegion};
use crate::view::style::{
    caret_paint, caret_style, default_paint, default_style, empty_caret_paint, empty_caret_style,
    selection_paint, selection_style, StylingCommand,
};
use crate::text::{decimal, digits, hexadecimal};
use crate::view::view_options::ViewOptions;
use vstd::prelude::*;
use vstd::string::*;

pub mod byte_properties;

verus! {

/// Which of two ways to show a byte counts more.
#[derive(Debug, PartialEq, Eq, Clone, Copy, Structural)]
pub enum Priority {
    Basic,
    Mark,
    Selection,
    Cursor,
}

/// Draws bytes and text in the colours of their kind.
#[derive(Debug, PartialEq, Eq, Clone, Copy, Structural)]
pub struct OutputColorizer;

impl OutputColorizer {
    pub fn new() -> (r: Self)
        ensures
            r == OutputColorizer,
    {
        OutputColorizer
    }
}

impl Default for OutputColorizer {
    fn default() -> (r: OutputColorizer)
        ensures
            r == OutputColorizer,
    {
        OutputColorizer::new()
    }
}

/// `len` blanks.
pub open spec fn padding(len: int) -> Seq<char> {
    Seq::new(len as nat, |i: int| ' ')
}

/// `len` blanks, for `len` up to 64.
pub fn make_padding(len: usize) -> (r: &'static str)
    requires
        len <= 64,
    ensures
        r@ == padding(len as int),
{
    let blanks = "                                                                ";
    proof {
        reveal_strlit("                                                                ");
        assert(blanks@.len() == 64);
        assert(forall|i: int| 0 <= i < 64 ==> blanks@[i] == ' ');
        assert(blanks.is_ascii()) by {
            assert(forall|i: int| 0 <= i < blanks@.len() ==> (blanks@[i] as u32) < 128);
        }
    }
    let r = blanks.substring_ascii(0, len);
    assert(r@ =~= padding(len as int));
    r
}

/// What became of an event.
pub enum Outcome {
    /// The mode on top did not handle it.
    NotHandled,
    /// The mode on top handled it.
    Handled,
    /// The mode on top handled it and asks for this to be done.
    Perform(Request),
}

/// How far the view is to be moved, in lines.
#[derive(Debug, PartialEq, Eq, Clone, Copy, Structural)]
pub enum Scroll {
    Up(usize),
    Down(usize),
}

/// The buffers, the stack of modes, and the options of the view.
pub struct HexView {
    buffers: Buffers,
    options: ViewOptions,
    mode_stack: Vec<Mode>,
}

/// The options without a message.
pub open spec fn without_info(options: ViewOptions) -> ViewOptions {
    ViewOptions { info: None, ..options }
}

/// The stack once the mode on top, which was taken off, has answered.
pub open spec fn stack_after(rest: Seq<Mode>, answer: ModeTransition) -> Seq<Mode> {
    match answer {
        ModeTransition::NotHandled(mode) => rest.push(mode),
        ModeTransition::Push(modes) => if rest.len() + modes@.len() == 0 {
            seq![Mode::Normal(Normal::new_spec())]
        } else {
            rest + modes@
        },
        ModeTransition::Pop => if rest.len() == 0 {
            seq![Mode::Normal(Normal::new_spec())]
        } else {
            rest
        },
        ModeTransition::Perform(_) => rest.push(Mode::Normal(Normal::new_spec())),
    }
}

impl HexView {
    /// There is a mode, the buffers are well formed, and what is asked to
    /// be drawn again is in order.
    pub closed spec fn wf(&self) -> bool {
        self.buffers.wf() && self.mode_stack@.len() > 0 && self.options.dirty_wf()
    }

    /// The buffers.
    pub closed spec fn buffers_view(&self) -> BuffersView {
        self.buffers@
    }

    /// The stack of modes, the one that takes the events last.
    pub closed spec fn modes(&self) -> Seq<Mode> {
        self.mode_stack@
    }

    /// The options of the view.
    pub closed spec fn view_options(&self) -> ViewOptions {
        self.options
    }

    /// What a well-formed view holds.
    pub proof fn lemma_wf(&self)
        requires
            self.wf(),
        ensures
            self.modes().len() > 0,
            self.view_options().dirty_wf(),
    {
    }

    /// A view of `buffers` on a terminal of `size`, in normal mode.
    pub fn with_buffers(buffers: Buffers, size: (u16, u16)) -> (r: HexView)
        requires
            buffers.wf(),
        ensures
            r.wf(),
            r.buffers_view() == buffers@,
            r.modes() == seq![Mode::Normal(Normal::new_spec())],
            r.view_options().size == size,
            r.view_options().bytes_per_line == 16,
            r.view_options().start_offset == 0,
    {
        let mut mode_stack: Vec<Mode> = Vec::new();
        mode_stack.push(Mode::Normal(Normal::new()));
        assert(mode_stack@ =~= seq![Mode::Normal(Normal::new_spec())]);
        HexView { buffers, options: ViewOptions::new(size), mode_stack }
    }

    pub fn set_bytes_per_line(&mut self, bpl: usize)
        requires
            old(self).wf(),
        ensures
            final(self).wf(),
            final(self).buffers_view() == old(self).buffers_view(),
            final(self).modes() == old(self).modes(),
            final(self).view_options().bytes_per_line == bpl,
            final(self).view_options().size == old(self).view_options().size,
            final(self).view_options().start_offset == old(self).view_options().start_offset,
    {
        self.options.bytes_per_line = bpl;
    }

    /// Moves the view so that it starts at `start_offset`.
    pub fn set_view_start(&mut self, start_offset: usize)
        requires
            old(self).wf(),
        ensures
            final(self).wf(),
            final(self).buffers_view() == old(self).buffers_view(),
            final(self).modes() == old(self).modes(),
            final(self).view_options() == (ViewOptions { start_offset, ..old(self).view_options() }),
    {
        self.options.start_offset = start_offset;
    }

    /// The buffers.
    pub fn buffers(&self) -> (r: &Buffers)
        requires
            self.wf(),
        ensures
            r.wf(),
            r@ == self.buffers_view(),
    {
        &self.buffers
    }

    /// The buffers, to be changed.
    pub fn buffers_mut(&mut self) -> (r: &mut Buffers)
        requires
            old(self).wf(),
        ensures
            r.wf(),
            r@ == old(self).buffers_view(),
            final(self).buffers_view() == final(r)@,
            final(self).modes() == old(self).modes(),
            final(self).view_options() == old(self).view_options(),
            final(r).wf() ==> final(self).wf(),
    {
        &mut self.buffers
    }

    /// The options of the view.
    pub fn options(&self) -> (r: &ViewOptions)
        ensures
            *r == self.view_options(),
    {
        &self.options
    }

    /// The mode that takes the events.
    pub fn mode(&self) -> (r: &Mode)
        requires
            self.wf(),
        ensures
            *r == self.modes().last(),
    {
        &self.mode_stack[self.mode_stack.len() - 1]
    }

    /// Back to normal mode alone.
    pub fn reset_normal_mode(&mut self)
        requires
            old(self).wf(),
        ensures
            final(self).wf(),
            final(self).modes() == seq![Mode::Normal(Normal::new_spec())],
            final(self).buffers_view() == old(self).buffers_view(),
            final(self).view_options() == old(self).view_options(),
    {
        let mut mode_stack: Vec<Mode> = Vec::new();
        mode_stack.push(Mode::Normal(Normal::new()));
        assert(mode_stack@ =~= seq![Mode::Normal(Normal::new_spec())]);
        self.mode_stack = mode_stack;
    }

    /// Hands an event to the mode on top of the stack. The message of the
    /// event before is dropped; the mode is taken off the stack and
    /// answers, and the stack becomes what its answer says.
    pub fn handle_event(&mut self, evt: &Event) -> (r: Outcome)
        requires
            old(self).wf(),
        ensures
            final(self).wf(),
            layout_kept(old(self).view_options(), final(self).view_options()),
            exists|answer: ModeTransition|
                {
                    &&& #[trigger] old(self).modes().last().answers(
                        *evt,
                        old(self).buffers_view(),
                        without_info(old(self).view_options()),
                        answer,
                        final(self).buffers_view(),
                        final(self).view_options(),
                    )
                    &&& final(self).modes() == stack_after(old(self).modes().drop_last(), answer)
                    &&& match answer {
                        ModeTransition::NotHandled(_) => r is NotHandled,
                        ModeTransition::Perform(request) => r == Outcome::Perform(request),
                        _ => r is Handled,
                    }
                },
    {
        self.options.info = None;
        let ghost rest = self.mode_stack@.drop_last();
        let ghost top = self.mode_stack@.last();
        let old_mode = match self.mode_stack.pop() {
            Some(mode) => mode,
            None => vstd::pervasive::unreached(),
        };
        assert(old_mode == top && self.mode_stack@ == rest);
        let answer = old_mode.transition(evt, &mut self.buffers, &mut self.options);
        let ghost given = answer;
        let outcome = match answer {
            ModeTransition::NotHandled(old) => {
                self.mode_stack.push(old);
                Outcome::NotHandled
            },
            ModeTransition::Pop => Outcome::Handled,
            ModeTransition::Push(mut new) => {
                self.mode_stack.append(&mut new);
                Outcome::Handled
            },
            ModeTransition::Perform(request) => {
                self.mode_stack.push(Mode::Normal(Normal::new()));
                Outcome::Perform(request)
            },
        };
        if self.mode_stack.len() == 0 {
            self.mode_stack.push(Mode::Normal(Normal::new()));
            assert(self.mode_stack@ =~= seq![Mode::Normal(Normal::new_spec())]);
        }
        proof {
            assert(match given {
                ModeTransition::NotHandled(_) => outcome is NotHandled,
                ModeTransition::Perform(request) => outcome == Outcome::Perform(request),
                _ => outcome is Handled,
            });
            assert(rest == old(self).modes().drop_last());
            assert(top == old(self).modes().last());
            assert(self.modes() == stack_after(old(self).modes().drop_last(), given));
            assert(top.answers(
                *evt,
                old(self).buffers_view(),
                without_info(old(self).view_options()),
                given,
                self.buffers_view(),
                self.view_options(),
            ));
        }
        outcome
    }

    /// What is to be drawn again, which is then forgotten.
    pub fn take_dirty(&mut self) -> (r: Option<DirtyBytes>)
        requires
            old(self).wf(),
        ensures
            final(self).wf(),
            r == old(self).view_options().dirty,
            r matches Some(dirty) ==> dirty.wf(),
            final(self).view_options() == (ViewOptions { dirty: None, ..old(self).view_options() }),
            final(self).buffers_view() == old(self).buffers_view(),
            final(self).modes() == old(self).modes(),
    {
        self.options.dirty.take()
    }

    /// What an event that no mode handled does by default: a new size of
    /// the terminal is taken over, and says so.
    pub fn handle_event_default(&mut self, event: &Event) -> (resized: bool)
        requires
            old(self).wf(),
        ensures
            final(self).wf(),
            final(self).buffers_view() == old(self).buffers_view(),
            final(self).modes() == old(self).modes(),
            match *event {
                Event::Resize(x, y) => resized && final(self).view_options() == (ViewOptions {
                    size: (x, y),
                    ..old(self).view_options()
                }),
                _ => !resized && final(self).view_options() == old(self).view_options(),
            },
    {
        match event {
            Event::Resize(x, y) => {
                self.options.size = (*x, *y);
                true
            },
            _ => false,
        }
    }

    /// Shows `info` as the message.
    pub fn report(&mut self, info: String)
        requires
            old(self).wf(),
        ensures
            final(self).wf(),
            final(self).view_options() == (ViewOptions { info: Some(info), ..old(self).view_options() }),
            final(self).buffers_view() == old(self).buffers_view(),
            final(self).modes() == old(self).modes(),
    {
        self.options.info = Some(info);
    }

    /// Asks for all of the document to be drawn again.
    pub fn redraw(&mut self)
        requires
            old(self).wf(),
        ensures
            final(self).wf(),
            final(self).view_options() == (ViewOptions {
                dirty: Some(DirtyBytes::ChangeLength),
                ..old(self).view_options()
            }),
            final(self).buffers_view() == old(self).buffers_view(),
            final(self).modes() == old(self).modes(),
    {
        self.options.dirty = Some(DirtyBytes::ChangeLength);
    }

    /// The current buffer was written to `path`: it holds no changes that
    /// are not written, and `path` is its path if it had none.
    pub fn write_finished(&mut self, path: String)
        requires
            old(self).wf(),
        ensures
            final(self).wf(),
            final(self).modes() == old(self).modes(),
            final(self).view_options() == old(self).view_options(),
            final(self).buffers_view().current == old(self).buffers_view().current,
            final(self).buffers_view().list == old(self).buffers_view().list.update(
                old(self).buffers_view().current,
                crate::buffer::BufferView {
                    dirty: false,
                    path: match old(self).buffers_view().list[old(
                        self,
                    ).buffers_view().current].path {
                        Some(p) => Some(p),
                        None => Some(path@),
                    },
                    ..old(self).buffers_view().list[old(self).buffers_view().current]
                },
            ),
    {
        let buffer = self.buffers.current_mut();
        buffer.mark_clean();
        buffer.update_path_if_missing(path);
    }

    /// The editor ends: the mode in which no input is taken goes on top of
    /// the stack.
    pub fn quit(&mut self)
        requires
            old(self).wf(),
        ensures
            final(self).wf(),
            final(self).modes() == old(self).modes().push(Mode::Quitting(Quitting())),
            final(self).view_options() == old(self).view_options(),
            final(self).buffers_view() == old(self).buffers_view(),
    {
        self.mode_stack.push(Mode::Quitting(Quitting()));
    }

    /// The offsets that are on the screen: from the start of the view as
    /// far as the lines above the status line reach, and no farther than
    /// the slot past the last byte.
    pub open spec fn visible(options: ViewOptions, len: int) -> (int, int) {
        let rows = if options.size.1 == 0 {
            0
        } else {
            options.size.1 - 1
        };
        let end = options.start_offset + rows * options.bytes_per_line;
        (options.start_offset as int, if len + 1 < end {
            len + 1
        } else {
            end
        })
    }

    /// The offsets that are on the screen.
    pub fn visible_bytes(&self) -> (r: ByteInterval)
        requires
            self.wf(),
        ensures
            r.start == Self::visible(
                self.view_options(),
                self.buffers_view().list[self.buffers_view().current].data.len() as int,
            ).0,
            r.end == crate::selection::int_min(
                usize::MAX as int,
                Self::visible(
                    self.view_options(),
                    self.buffers_view().list[self.buffers_view().current].data.len() as int,
                ).1,
            ),
    {
        let rows: usize = if self.options.size.1 == 0 {
            0
        } else {
            (self.options.size.1 - 1) as usize
        };
        let current = self.buffers.current();
        proof {
            current.lemma_wf();
        }
        let len = current.data().len();
        let on_screen = match rows.checked_mul(self.options.bytes_per_line) {
            Some(bytes) => self.options.start_offset.saturating_add(bytes),
            None => usize::MAX,
        };
        let end = if len + 1 < on_screen {
            len + 1
        } else {
            on_screen
        };
        ByteInterval { start: self.options.start_offset, end }
    }

    /// The row of the screen that shows `offset`, if one does.
    pub fn offset_to_row(&self, offset: usize) -> (r: Option<u16>)
        ensures
            r matches Some(row) ==> self.view_options().bytes_per_line > 0 && row == (offset
                - self.view_options().start_offset) / (self.view_options().bytes_per_line as int),
            r is Some == (self.view_options().bytes_per_line > 0 && offset
                >= self.view_options().start_offset && offset - self.view_options().start_offset
                <= self.view_options().bytes_per_line * self.view_options().size.1 && (offset
                - self.view_options().start_offset) / (self.view_options().bytes_per_line as int)
                <= u16::MAX),
    {
        if offset < self.options.start_offset || self.options.bytes_per_line == 0 {
            return None;
        }
        let normalized_offset = offset - self.options.start_offset;
        let bytes_per_line = self.options.bytes_per_line;
        let fits = match bytes_per_line.checked_mul(self.options.size.1 as usize) {
            Some(max_bytes) => normalized_offset <= max_bytes,
            None => true,
        };
        if !fits {
            return None;
        }
        let row = normalized_offset / bytes_per_line;
        if row > u16::MAX as usize {
            return None;
        }
        Some(row as u16)
    }
}


/// The kinds of bytes that the view tells apart.
#[derive(Debug, PartialEq, Eq, Clone, Copy, Hash, Structural)]
pub enum ByteKind {
    Null,
    AsciiPrintable,
    AsciiWhitespace,
    AsciiOther,
    NonAscii,
}

/// The kind of a byte: zero; an ascii character with a glyph; blank, tab,
/// line feed, form feed or carriage return; any other ascii character; or
/// none of these.
pub open spec fn kind_of(byte: u8) -> ByteKind {
    if byte == 0 {
        ByteKind::Null
    } else if 0x21 <= byte <= 0x7e {
        ByteKind::AsciiPrintable
    } else if byte == 0x20 || byte == 0x09 || byte == 0x0a || byte == 0x0c || byte == 0x0d {
        ByteKind::AsciiWhitespace
    } else if byte < 0x80 {
        ByteKind::AsciiOther
    } else {
        ByteKind::NonAscii
    }
}

pub fn byte_kind(byte: u8) -> (r: ByteKind)
    ensures
        r == kind_of(byte),
{
    if byte == 0 {
        ByteKind::Null
    } else if 0x21 <= byte && byte <= 0x7e {
        ByteKind::AsciiPrintable
    } else if byte == 0x20 || byte == 0x09 || byte == 0x0a || byte == 0x0c || byte == 0x0d {
        ByteKind::AsciiWhitespace
    } else if byte < 0x80 {
        ByteKind::AsciiOther
    } else {
        ByteKind::NonAscii
    }
}

/// The character that shows a byte in the ascii column: the byte itself if
/// it is a blank or has a glyph, a dot otherwise.
pub open spec fn ascii_of(byte: u8) -> char {
    if 0x20 <= byte <= 0x7e {
        byte as char
    } else {
        '.'
    }
}

pub fn ascii_repr(byte: u8) -> (r: char)
    ensures
        r == ascii_of(byte),
{
    if 0x20 <= byte && byte <= 0x7e {
        byte as char
    } else {
        '.'
    }
}

/// The region among the first `n` that holds the offset `i`, if one does;
/// the first of them, should there be several.
pub open spec fn region_at(regions: Seq<SelRegion>, i: int, n: int) -> Option<SelRegion>
    decreases n,
{
    if n <= 0 {
        None
    } else {
        match region_at(regions, i, n - 1) {
            Some(r) => Some(r),
            None => if regions[n - 1].spec_min() <= i <= regions[n - 1].spec_max() {
                Some(regions[n - 1])
            } else {
                None
            },
        }
    }
}

/// The paints that are set while the cell of the offset `i` is drawn, where
/// `region` is the region that holds `i`, if one does. A region is painted
/// from its first to its last byte; the cell of its caret is painted as a
/// caret, as a whole or, with `half`, from the middle on; at the start of a
/// line the paint that applies is set again, and at the end of a line the
/// default paint.
pub open spec fn cell_command(i: int, region: Option<SelRegion>, half: bool, bytes_per_line: int) -> StylingCommand {
    let top = match region {
        Some(r) => selection_paint(r.main),
        None => default_paint(),
    };
    let opened = match region {
        Some(r) => if r.spec_min() == i {
            StylingCommand { start: Some(top), ..StylingCommand::unset() }
        } else {
            StylingCommand::unset()
        },
        None => StylingCommand::unset(),
    };
    let with_caret = match region {
        Some(r) => if r.caret == i {
            if half {
                if i == r.spec_min() {
                    StylingCommand { mid: Some(caret_paint(r.main)), end: Some(top), ..opened }
                } else {
                    StylingCommand { start: Some(top), mid: Some(caret_paint(r.main)), ..opened }
                }
            } else {
                StylingCommand { start: Some(caret_paint(r.main)), end: Some(top), ..opened }
            }
        } else {
            opened
        },
        None => opened,
    };
    let closed = match region {
        Some(r) => if r.spec_max() == i {
            StylingCommand { end: Some(default_paint()), ..with_caret }
        } else {
            with_caret
        },
        None => with_caret,
    };
    if i % bytes_per_line == 0 && closed.start is None {
        StylingCommand { start: Some(top), ..closed }
    } else if (i + 1) % bytes_per_line == 0 {
        StylingCommand { end: Some(default_paint()), ..closed }
    } else {
        closed
    }
}

/// Of regions in order, none of those before the `k`th holds an offset
/// that they all end before, and none behind the `k`th holds an offset
/// that the `k`th does not end before.
pub proof fn lemma_region_at(regions: Seq<SelRegion>, i: int, k: int, n: int)
    requires
        sorted_disjoint(regions),
        0 <= k <= regions.len(),
        0 <= n <= regions.len(),
        forall|j: int| 0 <= j < k ==> (#[trigger] regions[j]).spec_max() < i,
        k < regions.len() ==> regions[k].spec_max() >= i,
    ensures
        region_at(regions, i, n) == if k < n && regions[k].spec_min() <= i {
            Some(regions[k])
        } else {
            None
        },
    decreases n,
{
    if n > 0 {
        lemma_region_at(regions, i, k, n - 1);
        if n - 1 > k {
            assert(regions[k].spec_max() < regions[n - 1].spec_min());
        }
        if n - 1 < k {
            assert(regions[n - 1].spec_max() < i);
        }
    }
}

impl HexView {
    /// Whether the caret stands on a byte of which one hex digit is typed.
    pub open spec fn half_cursor(&self) -> bool {
        match self.modes().last() {
            Mode::Insert(mode) => mode.hex_half is Some,
            Mode::Replace(mode) => mode.hex_half is Some,
            _ => false,
        }
    }

    /// The regions of the current buffer.
    pub open spec fn regions(&self) -> Seq<SelRegion> {
        self.buffers_view().list[self.buffers_view().current].selection.regions
    }

    /// The paints for the cells of the offsets `start..end`, one command
    /// for each cell.
    pub fn mark_commands(&self, start: usize, end: usize) -> (r: Vec<StylingCommand>)
        requires
            self.wf(),
            start <= end,
            self.view_options().bytes_per_line > 0,
        ensures
            r@.len() == end - start,
            forall|n: int|
                0 <= n < r@.len() ==> #[trigger] r@[n] == cell_command(
                    start + n,
                    region_at(self.regions(), start + n, self.regions().len() as int),
                    self.half_cursor(),
                    self.view_options().bytes_per_line as int,
                ),
    {
        let current = self.buffers.current();
        proof {
            current.lemma_wf();
        }
        let regions = current.selection().iter();
        let half = self.mode_stack[self.mode_stack.len() - 1].has_half_cursor();
        let bytes_per_line = self.options.bytes_per_line;
        let mut commands: Vec<StylingCommand> = Vec::new();
        let mut k: usize = current.selection().search(start);
        let mut i: usize = start;
        while i < end
            invariant
                start <= i <= end,
                commands@.len() == i - start,
                bytes_per_line > 0,
                bytes_per_line == self.view_options().bytes_per_line,
                half == self.half_cursor(),
                regions@ == self.regions(),
                sorted_disjoint(regions@),
                k <= regions@.len(),
                forall|j: int| 0 <= j < k ==> (#[trigger] regions@[j]).spec_max() < i,
                k < regions@.len() ==> regions@[k as int].spec_max() >= i,
                forall|n: int|
                    0 <= n < commands@.len() ==> #[trigger] commands@[n] == cell_command(
                        start + n,
                        region_at(regions@, start + n, regions@.len() as int),
                        half,
                        bytes_per_line as int,
                    ),
            decreases end - i,
        {
            proof {
                lemma_region_at(regions@, i as int, k as int, regions@.len() as int);
            }
            let mut command = StylingCommand::default();
            let mut top = default_style();
            let mut closes = false;
            if k < regions.len() && regions[k].min() <= i {
                let region = regions[k];
                top = selection_style(region.is_main());
                if region.min() == i {
                    command = command.with_start_style(top);
                }
                if region.caret == i {
                    let caret = caret_style(region.is_main());
                    if half {
                        if i == region.min() {
                            command = command.with_mid_style(caret).with_end_style(top);
                        } else {
                            command = command.with_start_style(top).with_mid_style(caret);
                        }
                    } else {
                        command = command.with_start_style(caret).with_end_style(top);
                    }
                }
                if region.max() == i {
                    command = command.with_end_style(default_style());
                    closes = true;
                }
            }
            if i % bytes_per_line == 0 && command.start.is_none() {
                // A line starts: the paint that applies is set again.
                command = command.with_start_style(top);
            } else if i < usize::MAX && (i + 1) % bytes_per_line == 0 {
                // A line ends: back to the default paint.
                command = command.with_end_style(default_style());
            }
            commands.push(command);
            if closes {
                proof {
                    if k + 1 < regions@.len() {
                        assert(regions@[k as int].spec_max() < regions@[k + 1].spec_min());
                    }
                }
                k += 1;
            }
            i += 1;
        }
        commands
    }

    /// The paints for the slot past the last byte, if the last region
    /// reaches it: a caret there is painted as an empty caret, from the
    /// middle of the cell on if a byte is half typed.
    pub fn overflow_cursor_style(&self) -> (r: Option<StylingCommand>)
        requires
            self.wf(),
        ensures
            r == ({
                let b = self.buffers_view().list[self.buffers_view().current];
                let last = b.selection.regions.last();
                let len = b.data.len();
                if last.caret == len {
                    Some(
                        if self.half_cursor() {
                            StylingCommand {
                                start: None,
                                mid: Some(empty_caret_paint()),
                                end: Some(default_paint()),
                            }
                        } else {
                            StylingCommand {
                                start: Some(empty_caret_paint()),
                                mid: None,
                                end: Some(default_paint()),
                            }
                        },
                    )
                } else if last.tail == len {
                    Some(StylingCommand { start: None, mid: None, end: Some(default_paint()) })
                } else {
                    None
                }
            }),
    {
        let half = self.mode_stack[self.mode_stack.len() - 1].has_half_cursor();
        match self.buffers.current().overflow_sel_style() {
            Some(OverflowSelectionStyle::Tail) => Some(
                StylingCommand::default().with_end_style(default_style()),
            ),
            Some(_) => {
                if half {
                    Some(
                        StylingCommand::default().with_mid_style(empty_caret_style()).with_end_style(
                            default_style(),
                        ),
                    )
                } else {
                    Some(
                        StylingCommand::default().with_start_style(
                            empty_caret_style(),
                        ).with_end_style(default_style()),
                    )
                }
            },
            None => None,
        }
    }

    /// How far the view has to move to show the main caret: up by as many
    /// lines as lie, begun or whole, between the caret and the first
    /// offset shown, or down by as many as lie between the last offset
    /// shown and the caret.
    pub open spec fn scroll_for(main: int, visible: (int, int), bytes_per_line: int) -> Option<
        Scroll,
    > {
        if main < visible.0 {
            Some(Scroll::Up(((visible.0 - main + bytes_per_line - 1) / bytes_per_line) as usize))
        } else if main >= visible.1 {
            Some(
                Scroll::Down(
                    ((main - (visible.1 - 1) + bytes_per_line - 1) / bytes_per_line) as usize,
                ),
            )
        } else {
            None
        }
    }

    /// Where the view starts once it has moved.
    pub open spec fn scrolled(start_offset: usize, scroll: Option<Scroll>, bytes_per_line: int) -> int {
        match scroll {
            Some(Scroll::Up(lines)) => if start_offset - lines * bytes_per_line < 0 {
                0
            } else {
                start_offset - lines * bytes_per_line
            },
            Some(Scroll::Down(lines)) => if start_offset + lines * bytes_per_line > usize::MAX {
                usize::MAX as int
            } else {
                start_offset + lines * bytes_per_line
            },
            None => start_offset as int,
        }
    }

    /// Moves the view, line by line, so that it shows the main caret, and
    /// says how far it moved. The view of an empty document starts at its
    /// start.
    pub fn maybe_update_offset(&mut self) -> (r: Option<Scroll>)
        requires
            old(self).wf(),
            old(self).view_options().bytes_per_line > 0,
        ensures
            final(self).wf(),
            final(self).buffers_view() == old(self).buffers_view(),
            final(self).modes() == old(self).modes(),
            ({
                let options = old(self).view_options();
                let b = old(self).buffers_view().list[old(self).buffers_view().current];
                let main = b.selection.regions[b.selection.main].caret as int;
                if b.data.len() == 0 {
                    r is None && final(self).view_options() == (ViewOptions {
                        start_offset: 0,
                        ..options
                    })
                } else {
                    r == Self::scroll_for(
                        main,
                        Self::visible(options, b.data.len() as int),
                        options.bytes_per_line as int,
                    ) && final(self).view_options() == (ViewOptions {
                        start_offset: Self::scrolled(
                            options.start_offset,
                            r,
                            options.bytes_per_line as int,
                        ) as usize,
                        ..options
                    })
                }
            }),
    {
        let current = self.buffers.current();
        proof {
            current.lemma_wf();
        }
        if current.data().is_empty() {
            self.options.start_offset = 0;
            return None;
        }
        let main = current.selection().main_cursor_offset();
        let visible = self.visible_bytes();
        let bytes_per_line = self.options.bytes_per_line;
        if main < visible.start {
            let lines = Self::lines_for(visible.start - main, bytes_per_line);
            self.options.start_offset = self.options.start_offset.saturating_sub(
                Self::saturating_span(lines, bytes_per_line),
            );
            Some(Scroll::Up(lines))
        } else if main >= visible.end {
            let lines = Self::lines_for(main + 1 - visible.end, bytes_per_line);
            self.options.start_offset = self.options.start_offset.saturating_add(
                Self::saturating_span(lines, bytes_per_line),
            );
            Some(Scroll::Down(lines))
        } else {
            None
        }
    }

    /// The number of lines that `bytes` bytes begin.
    fn lines_for(bytes: usize, bytes_per_line: usize) -> (r: usize)
        requires
            bytes_per_line > 0,
        ensures
            r == (bytes + bytes_per_line - 1) / (bytes_per_line as int),
    {
        let whole = bytes / bytes_per_line;
        assert(bytes % bytes_per_line != 0 ==> whole < bytes) by (nonlinear_arith)
            requires
                bytes_per_line > 0,
                whole == bytes / bytes_per_line,
        ;
        let r = if bytes % bytes_per_line == 0 {
            whole
        } else {
            whole + 1
        };
        assert(r == (bytes + bytes_per_line - 1) / (bytes_per_line as int)) by (nonlinear_arith)
            requires
                bytes_per_line > 0,
                whole == bytes / bytes_per_line,
                r == if bytes % bytes_per_line == 0 {
                    whole
                } else {
                    (whole + 1) as usize
                },
        ;
        r
    }

    /// The bytes of `lines` lines, or the largest size where that does not
    /// fit.
    fn saturating_span(lines: usize, bytes_per_line: usize) -> (r: usize)
        ensures
            r == if lines * bytes_per_line > usize::MAX {
                usize::MAX as int
            } else {
                lines * bytes_per_line
            },
    {
        match lines.checked_mul(bytes_per_line) {
            Some(bytes) => bytes,
            None => usize::MAX,
        }
    }

    /// Where the view starts when the document is drawn afresh: at the
    /// line of the main caret if the caret lies before the view, and so
    /// that this line is the last one shown if it lies behind it.
    pub open spec fn fresh_start(options: ViewOptions, main: int, len: int) -> int {
        let visible = Self::visible(options, len);
        let bytes_per_line = options.bytes_per_line as int;
        let line = main - main % bytes_per_line;
        let rows = if options.size.1 == 0 {
            0
        } else {
            options.size.1 - 1
        };
        if main < visible.0 {
            line
        } else if main >= visible.1 {
            let below = if line + bytes_per_line > usize::MAX {
                usize::MAX as int
            } else {
                line + bytes_per_line
            };
            let screen = if rows * bytes_per_line > usize::MAX {
                usize::MAX as int
            } else {
                rows * bytes_per_line
            };
            if below < screen {
                0
            } else {
                below - screen
            }
        } else {
            options.start_offset as int
        }
    }

    /// Moves the view, for a fresh drawing, so that it shows the main
    /// caret.
    pub fn update_offset_for_redraw(&mut self)
        requires
            old(self).wf(),
            old(self).view_options().bytes_per_line > 0,
        ensures
            final(self).wf(),
            final(self).buffers_view() == old(self).buffers_view(),
            final(self).modes() == old(self).modes(),
            ({
                let options = old(self).view_options();
                let b = old(self).buffers_view().list[old(self).buffers_view().current];
                let main = b.selection.regions[b.selection.main].caret as int;
                final(self).view_options() == (ViewOptions {
                    start_offset: Self::fresh_start(options, main, b.data.len() as int) as usize,
                    ..options
                })
            }),
    {
        let current = self.buffers.current();
        proof {
            current.lemma_wf();
        }
        let main = current.selection().main_cursor_offset();
        let visible = self.visible_bytes();
        let bytes_per_line = self.options.bytes_per_line;
        assert(main % bytes_per_line <= main) by (nonlinear_arith)
            requires
                bytes_per_line > 0,
        ;
        let line: usize = main - main % bytes_per_line;
        if main < visible.start {
            self.options.start_offset = line;
        } else if main >= visible.end {
            let rows: usize = if self.options.size.1 == 0 {
                0
            } else {
                (self.options.size.1 - 1) as usize
            };
            let bytes_per_screen = Self::saturating_span(rows, bytes_per_line);
            self.options.start_offset = line.saturating_add(bytes_per_line).saturating_sub(
                bytes_per_screen,
            );
        }
    }

    /// The rows that show bytes of `interval`, as their first and last
    /// row, if any of its bytes is on the screen.
    pub fn rows_of(&self, interval: &ByteInterval) -> (r: Option<(u16, u16)>)
        requires
            self.wf(),
            self.view_options().bytes_per_line > 0,
        ensures
            ({
                let options = self.view_options();
                let b = self.buffers_view().list[self.buffers_view().current];
                let visible = Self::visible(options, b.data.len() as int);
                let first = if interval.start > visible.0 {
                    interval.start as int
                } else {
                    visible.0
                };
                let last = if interval.end < visible.1 {
                    interval.end as int
                } else {
                    visible.1
                };
                let per = options.bytes_per_line as int;
                match r {
                    Some((top, bottom)) => first < last && top == (first - options.start_offset)
                        / per && bottom == (last - 1 - options.start_offset) / per,
                    None => first >= last || (last - 1 - options.start_offset) / per > u16::MAX,
                }
            }),
    {
        let visible = self.visible_bytes();
        let first = if interval.start > visible.start {
            interval.start
        } else {
            visible.start
        };
        let last = if interval.end < visible.end {
            interval.end
        } else {
            visible.end
        };
        if first >= last {
            return None;
        }
        let start_offset = self.options.start_offset;
        let bytes_per_line = self.options.bytes_per_line;
        let top = (first - start_offset) / bytes_per_line;
        let bottom = (last - 1 - start_offset) / bytes_per_line;
        assert(top <= bottom) by (nonlinear_arith)
            requires
                top == (first - start_offset) / (bytes_per_line as int),
                bottom == (last - 1 - start_offset) / (bytes_per_line as int),
                first - start_offset <= last - 1 - start_offset,
                first - start_offset >= 0,
                bytes_per_line > 0,
        ;
        if bottom > u16::MAX as usize {
            return None;
        }
        Some((top as u16, bottom as u16))
    }
}


/// The texts of the status line.
pub struct StatusTexts {
    /// The name of the buffer, marked where the buffer was changed.
    pub buffer: String,
    /// The name of the mode.
    pub mode: String,
    /// The number of regions and the number of the main one.
    pub selections: String,
    /// Where the main caret is.
    pub position: String,
}

/// The name of the buffer between blanks, with `[+]` behind it where the
/// buffer was changed.
pub open spec fn buffer_text(name: Seq<char>, dirty: bool) -> Seq<char> {
    " "@ + name + if dirty {
        "[+]"@
    } else {
        ""@
    } + " "@
}

/// The number of regions and, counted from one, the number of the main
/// one.
pub open spec fn selections_text(count: int, main: int) -> Seq<char> {
    " "@ + digits(count, 10) + " sels ("@ + digits(main + 1, 10) + ") "@
}

/// The offset of the main caret and the last offset of the document, in
/// hexadecimal; or that the document is empty.
pub open spec fn position_text(caret: int, len: int) -> Seq<char> {
    if len != 0 {
        " "@ + digits(caret, 16) + "/"@ + digits(len - 1, 16) + " "@
    } else {
        " empty "@
    }
}

impl HexView {
    /// The texts of the status line, for the current buffer and the mode
    /// that takes the events.
    pub fn status_texts(&self) -> (r: StatusTexts)
        requires
            self.wf(),
        ensures
            ({
                let b = self.buffers_view().list[self.buffers_view().current];
                &&& r.buffer@ == buffer_text(
                    match b.path {
                        Some(p) => p,
                        None => "*scratch*"@,
                    },
                    b.dirty,
                )
                &&& r.mode@ == " "@ + self.modes().last().name_text() + " "@
                &&& r.selections@ == selections_text(
                    b.selection.regions.len() as int,
                    b.selection.main,
                )
                &&& r.position@ == position_text(
                    b.selection.regions[b.selection.main].caret as int,
                    b.data.len() as int,
                )
            }),
    {
        let current = self.buffers.current();
        proof {
            current.lemma_wf();
        }
        let mut buffer = String::from_str(" ");
        buffer.append(current.name().as_str());
        if current.is_dirty() {
            buffer.append("[+]");
        }
        buffer.append(" ");
        proof {
            reveal_strlit("");
            let name = match current@.path {
                Some(p) => p,
                None => "*scratch*"@,
            };
            assert(buffer@ =~= buffer_text(name, current@.dirty));
        }

        let mut mode = String::from_str(" ");
        mode.append(self.mode_stack[self.mode_stack.len() - 1].name().as_str());
        mode.append(" ");

        let mut selections = String::from_str(" ");
        selections.append(decimal(current.selection().len()).as_str());
        selections.append(" sels (");
        selections.append(decimal(current.selection().main_index() + 1).as_str());
        selections.append(") ");

        let len = current.data().len();
        let position = if len != 0 {
            let mut text = String::from_str(" ");
            text.append(hexadecimal(current.selection().main_cursor_offset()).as_str());
            text.append("/");
            text.append(hexadecimal(len - 1).as_str());
            text.append(" ");
            text
        } else {
            String::from_str(" empty ")
        };
        StatusTexts { buffer, mode, selections, position }
    }
}

} // verus!
