//! What all modes share: the sum of the modes, what a mode answers to an
//! event, and the moves of the selection that several modes make.

use crate::buffer::{
    ascending, covered, images_cover, region_intervals, Buffer, BufferView, Buffers, BuffersView,
    DirtyBytes,
};
use crate::delta::{edits_pieces, DeltaError, Edit, Piece, RopeDelta, MAX_DOCUMENT_LEN};
use crate::operations::edited_len;
use crate::keymap::Event;
use crate::modes::collapse::Collapse;
use crate::modes::command::{Command, CommandView, Request};
use crate::modes::insert::Insert;
use crate::modes::jumpto::JumpTo;
use crate::modes::normal::Normal;
use crate::modes::quitting::Quitting;
use crate::modes::replace::Replace;
use crate::modes::search::{Search, SearchView};
use crate::modes::split::Split;
use crate::selection::{
    all_bounded, boundary_caret, flat, images_bounded, int_min, lemma_cursors_can_map,
    lemma_flat_grows, moved_caret, plains, views, Direction, SelRegion, Selection,
};
use crate::view::view_options::ViewOptions;
use vstd::prelude::*;

verus! {

/// A mode of the editor, with what it keeps between events.
pub enum Mode {
    Normal(Normal),
    JumpTo(JumpTo),
    Split(Split),
    Search(Search),
    Collapse(Collapse),
    Insert(Insert),
    Replace(Replace),
    Command(Command),
    Quitting(Quitting),
}

/// What a mode answers to an event. The mode that answers was taken off the
/// stack before.
pub enum ModeTransition {
    /// The event is not for this mode, which goes back on the stack.
    NotHandled(Mode),
    /// These modes go on the stack, the last one on top.
    Push(Vec<Mode>),
    /// Nothing goes on the stack: the mode below is on top again.
    Pop,
    /// Normal mode goes on the stack, and the caller is asked to do what
    /// only it can do.
    Perform(Request),
}

impl ModeTransition {
    /// `mode` takes the place of the mode that answers.
    pub fn new_mode(mode: Mode) -> (r: ModeTransition)
        ensures
            r.is_new_mode(mode),
    {
        let mut modes: Vec<Mode> = Vec::new();
        modes.push(mode);
        assert(modes@ =~= seq![mode]);
        ModeTransition::Push(modes)
    }

    /// `parent` takes the place of the mode that answers, and `nested` goes
    /// on top of it.
    pub fn nest_mode(parent: Mode, nested: Mode) -> (r: ModeTransition)
        ensures
            match r {
                ModeTransition::Push(modes) => modes@ == seq![parent, nested],
                _ => false,
            },
    {
        let mut modes: Vec<Mode> = Vec::new();
        modes.push(parent);
        modes.push(nested);
        assert(modes@ =~= seq![parent, nested]);
        ModeTransition::Push(modes)
    }

    pub fn not_handled(mode: Mode) -> (r: ModeTransition)
        ensures
            r == ModeTransition::NotHandled(mode),
    {
        ModeTransition::NotHandled(mode)
    }

    pub fn pop() -> (r: ModeTransition)
        ensures
            r == ModeTransition::Pop,
    {
        ModeTransition::Pop
    }

    /// The answer puts exactly `mode` on the stack.
    pub open spec fn is_new_mode(self, mode: Mode) -> bool {
        match self {
            ModeTransition::Push(modes) => modes@ == seq![mode],
            _ => false,
        }
    }

    /// The answer puts exactly a search prompt that holds `view` on the
    /// stack.
    pub open spec fn is_search(self, view: SearchView) -> bool {
        match self {
            ModeTransition::Push(modes) => modes@.len() == 1 && match modes@[0] {
                Mode::Search(search) => search@ == view,
                _ => false,
            },
            _ => false,
        }
    }

    /// The answer puts exactly a command prompt that holds `view` on the
    /// stack.
    pub open spec fn is_command(self, view: CommandView) -> bool {
        match self {
            ModeTransition::Push(modes) => modes@.len() == 1 && match modes@[0] {
                Mode::Command(command) => command@ == view,
                _ => false,
            },
            _ => false,
        }
    }

    /// The answer hands a search prompt that holds `view` back.
    pub open spec fn hands_back_search(self, view: SearchView) -> bool {
        match self {
            ModeTransition::NotHandled(Mode::Search(search)) => search@ == view,
            _ => false,
        }
    }

    /// The answer hands a command prompt that holds `view` back.
    pub open spec fn hands_back_command(self, view: CommandView) -> bool {
        match self {
            ModeTransition::NotHandled(Mode::Command(command)) => command@ == view,
            _ => false,
        }
    }

    /// The answer asks for the current buffer to be written to `path`.
    pub open spec fn asks_to_write(self, path: Seq<char>) -> bool {
        match self {
            ModeTransition::Perform(Request::Write { path: asked }) => asked@ == path,
            _ => false,
        }
    }

    /// The answer asks for the file at `path` to be edited.
    pub open spec fn asks_to_edit(self, path: Seq<char>) -> bool {
        match self {
            ModeTransition::Perform(Request::Edit { path: asked }) => asked@ == path,
            _ => false,
        }
    }
}

/// A move that is made with every region of a selection.
#[derive(Debug, PartialEq, Eq, Clone, Copy, Structural)]
pub enum RegionMap {
    /// The caret moves by so many columns or lines; the region collapses.
    Move(Direction, usize),
    /// The caret moves by so many columns or lines; the tail stays.
    Extend(Direction, usize),
    /// The caret jumps to the start or end of the document or of its line;
    /// the region collapses.
    JumpBoundary(Direction),
    /// The caret jumps to the start or end of the document or of its line;
    /// the tail stays.
    ExtendBoundary(Direction),
    /// The region becomes a cursor at the offset, or past the last byte if
    /// the offset lies farther.
    JumpTo(usize),
    /// The caret goes to the offset, or past the last byte if the offset
    /// lies farther; the tail stays.
    ExtendTo(usize),
    SwapCaret,
    Collapse,
    ToBackward,
    /// The region runs forward, and its caret moves one byte on: the shape
    /// in which text is appended.
    Append,
    /// The caret moves by one column or line and then one column back; the
    /// region collapses. This is the move from a byte of which one hex
    /// digit was typed.
    MoveFromHalf(Direction),
}

impl RegionMap {
    /// Whether the move can be made with lines of `bytes_per_line` bytes:
    /// a jump to the start or end of a line needs lines that are not empty.
    pub open spec fn defined(self, bytes_per_line: int) -> bool {
        match self {
            RegionMap::JumpBoundary(_) | RegionMap::ExtendBoundary(_) => bytes_per_line > 0,
            _ => true,
        }
    }

    /// What the move makes of a region in a document of `max` bytes.
    pub open spec fn image(self, r: SelRegion, bytes_per_line: int, max: int) -> SelRegion {
        match self {
            RegionMap::Move(direction, count) => if max == 0 {
                r
            } else {
                let caret = moved_caret(r.caret as int, direction, bytes_per_line, max, count as int);
                SelRegion { caret: caret as usize, tail: caret as usize, main: false }
            },
            RegionMap::Extend(direction, count) => if max == 0 {
                r
            } else {
                let caret = moved_caret(r.caret as int, direction, bytes_per_line, max, count as int);
                SelRegion { caret: caret as usize, tail: r.tail, main: false }
            },
            RegionMap::JumpBoundary(direction) => if max == 0 {
                r
            } else {
                let caret = boundary_caret(r.caret as int, direction, bytes_per_line, max);
                SelRegion { caret: caret as usize, tail: caret as usize, main: false }
            },
            RegionMap::ExtendBoundary(direction) => if max == 0 {
                r
            } else {
                let caret = boundary_caret(r.caret as int, direction, bytes_per_line, max);
                SelRegion { caret: caret as usize, tail: r.tail, main: false }
            },
            RegionMap::JumpTo(offset) => {
                let caret = int_min(offset as int, max);
                SelRegion { caret: caret as usize, tail: caret as usize, main: false }
            },
            RegionMap::ExtendTo(offset) => {
                let caret = int_min(offset as int, max);
                SelRegion { caret: caret as usize, tail: r.tail, main: false }
            },
            RegionMap::SwapCaret => SelRegion { caret: r.tail, tail: r.caret, main: false },
            RegionMap::Collapse => SelRegion { caret: r.caret, tail: r.caret, main: false },
            RegionMap::ToBackward => r.spec_to_backward(),
            RegionMap::MoveFromHalf(direction) => if max == 0 {
                r
            } else {
                let first = moved_caret(r.caret as int, direction, bytes_per_line, max, 1);
                let caret = moved_caret(first, Direction::Left, bytes_per_line, max, 1);
                SelRegion { caret: caret as usize, tail: caret as usize, main: false }
            },
            RegionMap::Append => if max == 0 {
                r.spec_to_forward()
            } else {
                SelRegion {
                    caret: moved_caret(
                        r.spec_to_forward().caret as int,
                        Direction::Right,
                        bytes_per_line,
                        max,
                        1,
                    ) as usize,
                    tail: r.spec_to_forward().tail,
                    main: false,
                }
            },
        }
    }

    /// The images of all regions, one for each.
    pub open spec fn images(self, regions: Seq<SelRegion>, bytes_per_line: int, max: int) -> Seq<
        Seq<SelRegion>,
    > {
        Seq::new(regions.len(), |i: int| seq![self.image(regions[i], bytes_per_line, max)])
    }

    /// The buffer after the move was made, which it is if the move is
    /// defined and the images lie inside the document and can be merged.
    pub open spec fn made(self, b: BufferView, bytes_per_line: int) -> bool {
        let images = self.images(b.selection.regions, bytes_per_line, b.data.len() as int);
        self.defined(bytes_per_line) && b.selection.can_map(images) && images_bounded(
            images,
            b.data.len() as int,
        )
    }

    /// The buffer after the move, or as it was where the move is not made.
    pub open spec fn moved(self, b: BufferView, bytes_per_line: int) -> BufferView {
        if self.made(b, bytes_per_line) {
            BufferView {
                selection: b.selection.mapped(
                    self.images(b.selection.regions, bytes_per_line, b.data.len() as int),
                ),
                ..b
            }
        } else {
            b
        }
    }

    /// What the move makes of one region.
    pub fn apply(&self, r: &SelRegion, bytes_per_line: usize, max: usize) -> (out: SelRegion)
        requires
            self.defined(bytes_per_line as int),
        ensures
            out == self.image(*r, bytes_per_line as int, max as int),
    {
        match self {
            RegionMap::Move(direction, count) => r.simple_move(
                *direction,
                bytes_per_line,
                max,
                *count,
            ),
            RegionMap::Extend(direction, count) => r.simple_extend(
                *direction,
                bytes_per_line,
                max,
                *count,
            ),
            RegionMap::JumpBoundary(direction) => r.jump_to_boundary(*direction, bytes_per_line, max),
            RegionMap::ExtendBoundary(direction) => r.extend_to_boundary(
                *direction,
                bytes_per_line,
                max,
            ),
            RegionMap::JumpTo(offset) => r.jump_to(if *offset < max { *offset } else { max }),
            RegionMap::ExtendTo(offset) => r.extend_to(if *offset < max { *offset } else { max }),
            RegionMap::SwapCaret => r.swap_caret(),
            RegionMap::Collapse => r.collapse(),
            RegionMap::ToBackward => r.to_backward(),
            RegionMap::Append => r.to_forward().simple_extend(
                Direction::Right,
                bytes_per_line,
                max,
                1,
            ),
            RegionMap::MoveFromHalf(direction) => r.simple_move(
                *direction,
                bytes_per_line,
                max,
                1,
            ).simple_move(Direction::Left, bytes_per_line, max, 1),
        }
    }

    /// The images of all regions of `selection`.
    pub fn images_of(&self, selection: &Selection, bytes_per_line: usize, max: usize) -> (r: Vec<
        Vec<SelRegion>,
    >)
        requires
            self.defined(bytes_per_line as int),
        ensures
            views(r@) == self.images(selection@.regions, bytes_per_line as int, max as int),
    {
        let regions = selection.iter();
        let ghost want = self.images(regions@, bytes_per_line as int, max as int);
        let mut images: Vec<Vec<SelRegion>> = Vec::new();
        let mut i: usize = 0;
        while i < regions.len()
            invariant
                i <= regions.len(),
                self.defined(bytes_per_line as int),
                images@.len() == i,
                forall|j: int| 0 <= j < i ==> (#[trigger] images@[j])@ == want[j],
                want == self.images(regions@, bytes_per_line as int, max as int),
            decreases regions.len() - i,
        {
            let mut image: Vec<SelRegion> = Vec::new();
            image.push(self.apply(&regions[i], bytes_per_line, max));
            assert(image@ =~= want[i as int]);
            images.push(image);
            i += 1;
        }
        assert(views(images@) =~= want);
        images
    }

    /// What is to be drawn again once the move was made: the bytes of the
    /// regions before and of their images, unless the whole document was
    /// to be drawn again anyway.
    pub open spec fn redrawn(
        self,
        b: BufferView,
        bytes_per_line: int,
        asked: Option<DirtyBytes>,
        now: Option<DirtyBytes>,
    ) -> bool {
        match asked {
            Some(DirtyBytes::ChangeLength) => now == asked,
            _ => match now {
                Some(DirtyBytes::ChangeInPlace(intervals)) => ascending(intervals@) && forall|
                    p: int,
                |
                    covered(intervals@, p) == (covered(region_intervals(b.selection.regions), p)
                        || images_cover(
                        self.images(b.selection.regions, bytes_per_line, b.data.len() as int),
                        p,
                    )),
                _ => false,
            },
        }
    }

    /// Makes the move with every region of the buffer's selection and asks
    /// for what changed to be drawn again. Where the move is not made,
    /// nothing changes.
    pub fn perform(&self, buffer: &mut Buffer, options: &mut ViewOptions) -> (done: bool)
        requires
            old(buffer).wf(),
        ensures
            final(buffer).wf(),
            done == self.made(old(buffer)@, old(options).bytes_per_line as int),
            final(buffer)@ == self.moved(old(buffer)@, old(options).bytes_per_line as int),
            options_kept(*old(options), *final(options)),
            !done ==> final(options).dirty == old(options).dirty,
            done ==> self.redrawn(
                old(buffer)@,
                old(options).bytes_per_line as int,
                old(options).dirty,
                final(options).dirty,
            ),
    {
        let bytes_per_line = options.bytes_per_line;
        let usable = match self {
            RegionMap::JumpBoundary(_) | RegionMap::ExtendBoundary(_) => bytes_per_line > 0,
            _ => true,
        };
        if !usable {
            return false;
        }
        let max = buffer.data().len();
        let images = self.images_of(buffer.selection(), bytes_per_line, max);
        match buffer.try_map_selections(images) {
            Some(dirty) => {
                options.make_dirty(dirty);
                true
            },
            None => false,
        }
    }
}

/// A move that leaves cursors is always made in a well-formed buffer:
/// cursors lie inside the document and can always be merged. So a count
/// in front of a direction moves every caret by that count.
pub proof fn lemma_cursor_moves_are_made(map: RegionMap, b: BufferView, bytes_per_line: int)
    requires
        b.inv(),
        0 <= bytes_per_line,
        map.defined(bytes_per_line),
        map is Move || map is JumpTo || map is Collapse || map is MoveFromHalf || map is JumpBoundary,
    ensures
        map.made(b, bytes_per_line),
{
    let max = b.data.len() as int;
    let regions = b.selection.regions;
    let images = map.images(regions, bytes_per_line, max);
    assert forall|i: int, k: int| 0 <= i < images.len() && 0 <= k < images[i].len() implies (
    #[trigger] images[i][k]).caret == images[i][k].tail && images[i][k].bounded(max) by {
        let r = regions[i];
        assert(r.bounded(max));
        match map {
            RegionMap::Move(direction, count) => {
                assert(0 <= bytes_per_line * count) by (nonlinear_arith)
                    requires
                        0 <= bytes_per_line,
                        0 <= count,
                ;
            },
            RegionMap::MoveFromHalf(direction) => {
                assert(bytes_per_line * 1 == bytes_per_line) by (nonlinear_arith);
            },
            RegionMap::JumpBoundary(direction) => {
                if max > 0 {
                    let c = r.caret as int;
                    assert(0 <= c % bytes_per_line <= c) by (nonlinear_arith)
                        requires
                            0 <= c,
                            0 < bytes_per_line,
                    ;
                }
            },
            _ => {},
        }
    }
    assert forall|i: int| 0 <= i < images.len() implies all_bounded(#[trigger] images[i], max) by {
        assert(images[i][0].bounded(max));
    }
    assert(flat(images, 1) =~= flat(images, 0) + plains(images[0]));
    lemma_flat_grows(images, 1, images.len() as int);
    lemma_cursors_can_map(b.selection, images);
}

/// The pieces of the delta that `delta` holds, if it holds one.
pub open spec fn made_pieces(delta: Result<RopeDelta, DeltaError>) -> Option<Seq<Piece>> {
    match delta {
        Ok(d) => Some(d.pieces()),
        Err(_) => None,
    }
}

/// The pieces of the delta that makes `edits` on a document of `base_len`
/// bytes, if the new document is no longer than `MAX_DOCUMENT_LEN`.
pub open spec fn delta_pieces_of(edits: Seq<Edit>, base_len: int) -> Option<Seq<Piece>> {
    if edited_len(edits, base_len) <= MAX_DOCUMENT_LEN {
        Some(edits_pieces(edits, base_len))
    } else {
        None
    }
}

/// `after` is `before` with the edit of `pieces` made, as one step to undo
/// or, for `incomplete`, as part of a run of incomplete edits. Where there
/// is no edit, or where the selection cannot follow it, nothing changed.
pub open spec fn edit_made(
    before: BufferView,
    after: BufferView,
    pieces: Option<Seq<Piece>>,
    incomplete: bool,
    caret_offset: int,
    tail_offset: int,
) -> bool {
    if pieces is Some && before.can_follow(pieces.unwrap(), caret_offset, tail_offset) {
        let p = pieces.unwrap();
        if incomplete {
            after == before.begun(p, caret_offset, tail_offset)
        } else {
            after == before.applied(p, caret_offset, tail_offset)
        }
    } else {
        after == before
    }
}

/// `after` is `before` with the edit of `pieces` made in place, as one step
/// to undo or, for `incomplete`, as part of a run of incomplete edits: the
/// selection stays where it is. Where there is no edit, or
/// where the selection does not lie inside the new document, nothing
/// changed.
pub open spec fn edit_made_in_place(
    before: BufferView,
    after: BufferView,
    pieces: Option<Seq<Piece>>,
    incomplete: bool,
) -> bool {
    if edit_done_in_place(before, pieces) {
        let p = pieces.unwrap();
        if incomplete {
            after == before.begun_in_place(p)
        } else {
            after == before.applied_in_place(p)
        }
    } else {
        after == before
    }
}

/// Whether the edit of `pieces` is made in place.
pub open spec fn edit_done_in_place(before: BufferView, pieces: Option<Seq<Piece>>) -> bool {
    pieces is Some && before.selection.bounded(crate::history::total_len(pieces.unwrap()))
}

/// Applies the edit that `delta` holds in place, if it holds one, and asks
/// for the document to be drawn again.
pub fn apply_edit_in_place(
    buffer: &mut Buffer,
    options: &mut ViewOptions,
    delta: Result<RopeDelta, DeltaError>,
    incomplete: bool,
) -> (done: bool)
    requires
        old(buffer).wf(),
        !incomplete ==> old(buffer)@.history.partial is None,
        delta matches Ok(d) ==> d.fits(old(buffer)@.data.len() as int),
    ensures
        final(buffer).wf(),
        done == edit_done_in_place(old(buffer)@, made_pieces(delta)),
        edit_made_in_place(old(buffer)@, final(buffer)@, made_pieces(delta), incomplete),
        options_kept(*old(options), *final(options)),
        !done ==> final(options).dirty == old(options).dirty,
        done ==> final(options).dirty == Some(DirtyBytes::ChangeLength),
{
    match delta {
        Ok(d) => {
            match buffer.try_apply_in_place(d, incomplete) {
                Some(dirty) => {
                    options.make_dirty(dirty);
                    true
                },
                None => false,
            }
        },
        Err(_) => false,
    }
}

/// Whether the edit of `pieces` is made.
pub open spec fn edit_done(
    before: BufferView,
    pieces: Option<Seq<Piece>>,
    caret_offset: int,
    tail_offset: int,
) -> bool {
    pieces is Some && before.can_follow(pieces.unwrap(), caret_offset, tail_offset)
}

/// Applies the edit that `delta` holds, if it holds one and the selection
/// can follow it, and asks for the document to be drawn again.
pub fn apply_edit(
    buffer: &mut Buffer,
    options: &mut ViewOptions,
    delta: Result<RopeDelta, DeltaError>,
    incomplete: bool,
    caret_offset: isize,
    tail_offset: isize,
) -> (done: bool)
    requires
        old(buffer).wf(),
        !incomplete ==> old(buffer)@.history.partial is None,
        delta matches Ok(d) ==> d.fits(old(buffer)@.data.len() as int),
    ensures
        final(buffer).wf(),
        done == edit_done(old(buffer)@, made_pieces(delta), caret_offset as int, tail_offset as int),
        edit_made(
            old(buffer)@,
            final(buffer)@,
            made_pieces(delta),
            incomplete,
            caret_offset as int,
            tail_offset as int,
        ),
        options_kept(*old(options), *final(options)),
        !done ==> final(options).dirty == old(options).dirty,
        done ==> final(options).dirty == Some(DirtyBytes::ChangeLength),
{
    match delta {
        Ok(d) => {
            match buffer.try_apply(d, incomplete, caret_offset, tail_offset) {
                Some(dirty) => {
                    options.make_dirty(dirty);
                    true
                },
                None => false,
            }
        },
        Err(_) => false,
    }
}

/// The message is `text`.
pub open spec fn says(info: Option<String>, text: Seq<char>) -> bool {
    match info {
        Some(shown) => shown@ == text,
        None => false,
    }
}

/// The layout and the message are as they were; only what is to be drawn
/// again may differ, and it stays in order.
pub open spec fn options_kept(before: ViewOptions, after: ViewOptions) -> bool {
    &&& after.size == before.size
    &&& after.bytes_per_line == before.bytes_per_line
    &&& after.start_offset == before.start_offset
    &&& after.info == before.info
    &&& before.dirty_wf() ==> after.dirty_wf()
}

/// The layout is as it was; the message and what is to be drawn again may
/// differ, but what is to be drawn again stays in order.
pub open spec fn layout_kept(before: ViewOptions, after: ViewOptions) -> bool {
    &&& after.size == before.size
    &&& after.bytes_per_line == before.bytes_per_line
    &&& after.start_offset == before.start_offset
    &&& before.dirty_wf() ==> after.dirty_wf()
}

impl Mode {
    /// The name of the mode.
    pub open spec fn name_text(self) -> Seq<char> {
        match self {
            Mode::Normal(mode) => "NORMAL"@ + mode.count_state.text(),
            Mode::JumpTo(mode) => if mode.extend {
                "EXTEND"@
            } else {
                "JUMP"@
            },
            Mode::Split(mode) => "SPLIT"@ + mode.count_state.text(),
            Mode::Search(mode) => mode.next.name_text(),
            Mode::Collapse(_) => "COLLAPSE"@,
            Mode::Insert(mode) => mode.name_text(),
            Mode::Replace(mode) => mode.name_text(),
            Mode::Command(_) => "COMMAND"@,
            Mode::Quitting(_) => "QUITTING"@,
        }
    }

    /// The name that the status line shows.
    pub fn name(&self) -> (r: String)
        ensures
            r@ == self.name_text(),
    {
        match self {
            Mode::Normal(mode) => mode.name(),
            Mode::JumpTo(mode) => mode.name(),
            Mode::Split(mode) => mode.name(),
            Mode::Search(mode) => mode.name(),
            Mode::Collapse(mode) => mode.name(),
            Mode::Insert(mode) => mode.name(),
            Mode::Replace(mode) => mode.name(),
            Mode::Command(mode) => mode.name(),
            Mode::Quitting(mode) => mode.name(),
        }
    }

    /// Whether the editor goes on reading input in this mode.
    pub fn takes_input(&self) -> (r: bool)
        ensures
            r == !(self is Quitting),
    {
        match self {
            Mode::Quitting(_) => false,
            _ => true,
        }
    }

    /// Whether the caret stands on a byte of which one hex digit is typed.
    pub fn has_half_cursor(&self) -> (r: bool)
        ensures
            r == match *self {
                Mode::Insert(mode) => mode.hex_half is Some,
                Mode::Replace(mode) => mode.hex_half is Some,
                _ => false,
            },
    {
        match self {
            Mode::Insert(mode) => mode.has_half_cursor(),
            Mode::Replace(mode) => mode.has_half_cursor(),
            _ => false,
        }
    }

    /// What the mode answers to an event, as its own contract says.
    pub open spec fn answers(
        self,
        event: Event,
        before: BuffersView,
        options_before: ViewOptions,
        r: ModeTransition,
        after: BuffersView,
        options_after: ViewOptions,
    ) -> bool {
        match self {
            Mode::Normal(mode) => mode.answers(event, before, options_before, r, after, options_after),
            Mode::JumpTo(mode) => mode.answers(event, before, options_before, r, after, options_after),
            Mode::Split(mode) => mode.answers(event, before, r, after),
            Mode::Search(mode) => mode.pattern.pieces@.len() < usize::MAX ==> mode.answers(
                event,
                before,
                r,
                after,
            ),
            Mode::Collapse(mode) => r == ModeTransition::NotHandled(self) && after == before,
            Mode::Insert(mode) => mode.answers(event, before, options_before, r, after),
            Mode::Replace(mode) => mode.answers(event, before, options_before, r, after),
            Mode::Command(mode) => mode.answers(event, before, r, after, options_after),
            Mode::Quitting(mode) => r == ModeTransition::NotHandled(self) && after == before,
        }
    }

    /// Hands the event to the mode.
    pub fn transition(self, event: &Event, buffers: &mut Buffers, options: &mut ViewOptions) -> (r:
        ModeTransition)
        requires
            old(buffers).wf(),
        ensures
            final(buffers).wf(),
            layout_kept(*old(options), *final(options)),
            self.answers(
                *event,
                old(buffers)@,
                *old(options),
                r,
                final(buffers)@,
                *final(options),
            ),
    {
        match self {
            Mode::Normal(mode) => mode.transition(event, buffers, options),
            Mode::JumpTo(mode) => mode.transition(event, buffers, options),
            Mode::Split(mode) => mode.transition(event, buffers, options),
            Mode::Search(mode) => mode.transition(event, buffers, options),
            Mode::Collapse(mode) => ModeTransition::NotHandled(Mode::Collapse(mode)),
            Mode::Insert(mode) => mode.transition(event, buffers, options),
            Mode::Replace(mode) => mode.transition(event, buffers, options),
            Mode::Command(mode) => mode.transition(event, buffers, options),
            Mode::Quitting(mode) => ModeTransition::NotHandled(Mode::Quitting(mode)),
        }
    }
}

} // verus!
