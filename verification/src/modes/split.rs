//! Splitting the selection: into chunks of a given width, or at the
//! matches of a pattern, which are cut out.

use crate::buffer::{Buffer, BufferView, Buffers, BuffersView, ByteInterval};
use crate::cmd_count;
use crate::keymap::{bound_action, Event, KeyEvent, KeyMap};
use crate::modes::collapse::{match_views, matches_proper, selection_matches};
use crate::modes::mode::{layout_kept, options_kept, Mode, ModeTransition};
use crate::modes::normal::Normal;
use crate::modes::search::{Pattern, PatternPiece, Search, SearchAcceptor};
use crate::selection::{images_bounded, int_min, total_len, views, SelRegion, Selection};
use crate::view::view_options::ViewOptions;
use vstd::prelude::*;
use vstd::string::*;

verus! {

/// Waits for the way to split, with a count in front of it.
#[derive(Debug, PartialEq, Eq, Clone, Copy, Structural)]
pub struct Split {
    pub count_state: cmd_count::State,
}

/// A way to split.
#[derive(Debug, PartialEq, Eq, Clone, Copy, Structural)]
pub enum Action {
    Width(usize),
    Null,
    Search { hex: bool },
}

/// The keys of the mode: `b`, `w`, `d`, `q`, `o` for chunks of 1, 2, 4, 8
/// and 16 bytes, `n` to split at zero bytes, `/` and `?` to split at a
/// pattern typed in ascii or in hex.
pub open spec fn bindings() -> Seq<(KeyEvent, Action)> {
    seq![
        (KeyEvent::plain('b'), Action::Width(1)),
        (KeyEvent::plain('w'), Action::Width(2)),
        (KeyEvent::plain('d'), Action::Width(4)),
        (KeyEvent::plain('q'), Action::Width(8)),
        (KeyEvent::plain('o'), Action::Width(16)),
        (KeyEvent::plain('n'), Action::Null),
        (KeyEvent::plain('/'), Action::Search { hex: false }),
        (KeyEvent::plain('?'), Action::Search { hex: true }),
    ]
}

pub fn default_maps() -> (r: KeyMap<Action>)
    ensures
        r.maps@ == bindings(),
{
    let mut map = KeyMap::new();
    map.plain('b', Action::Width(1));
    map.plain('w', Action::Width(2));
    map.plain('d', Action::Width(4));
    map.plain('q', Action::Width(8));
    map.plain('o', Action::Width(16));
    map.plain('n', Action::Null);
    map.plain('/', Action::Search { hex: false });
    map.plain('?', Action::Search { hex: true });
    assert(map.maps@ =~= bindings());
    map
}

/// The chunks of `step` bytes of a region from `pos` on, the last one as
/// long as the region reaches; each runs backward if the region does, a
/// cursor counting as such.
pub open spec fn chunks_from(r: SelRegion, pos: int, step: int) -> Seq<SelRegion>
    decreases r.spec_max() - pos + 1,
{
    if pos > r.spec_max() || step <= 0 {
        Seq::empty()
    } else {
        let end = int_min(r.spec_max(), pos + step - 1);
        let chunk = SelRegion { caret: pos as usize, tail: end as usize, main: false };
        seq![
            if r.spec_leans_backward() {
                chunk.spec_to_backward()
            } else {
                chunk.spec_to_forward()
            },
        ] + chunks_from(r, end + 1, step)
    }
}

/// What is left of a region, and what was cut off so far, once the first
/// `k` matches were cut out of it.
pub struct Cut {
    pub pieces: Seq<SelRegion>,
    pub rest: Option<SelRegion>,
}

/// Cuts the first `k` matches out of a region, from left to right: what
/// lies before a match is cut off as a piece, and what lies behind it is
/// what the next match is cut out of.
pub open spec fn cut(r: SelRegion, matches: Seq<ByteInterval>, k: int) -> Cut
    decreases k,
{
    if k <= 0 {
        Cut { pieces: Seq::empty(), rest: Some(r) }
    } else {
        let before = cut(r, matches, k - 1);
        match before.rest {
            None => before,
            Some(base) => Cut {
                pieces: match base.left_piece(matches[k - 1].start as int) {
                    Some(left) => before.pieces.push(left),
                    None => before.pieces,
                },
                rest: base.right_piece(matches[k - 1].end - 1),
            },
        }
    }
}

/// What a region is split into when the matches are cut out of it.
pub open spec fn cut_image(r: SelRegion, matches: Seq<ByteInterval>) -> Seq<SelRegion> {
    let done = cut(r, matches, matches.len() as int);
    match done.rest {
        Some(rest) => done.pieces.push(rest),
        None => done.pieces,
    }
}

/// The number of bytes of the first `k` matches.
pub open spec fn matched_len(matches: Seq<ByteInterval>, k: int) -> int
    decreases k,
{
    if k <= 0 {
        0
    } else {
        matched_len(matches, k - 1) + (matches[k - 1].end - matches[k - 1].start)
    }
}

/// The number of bytes of the matches of the first `n` regions.
pub open spec fn all_matched_len(matches: Seq<Seq<ByteInterval>>, n: int) -> int
    decreases n,
{
    if n <= 0 {
        0
    } else {
        all_matched_len(matches, n - 1) + matched_len(matches[n - 1], matches[n - 1].len() as int)
    }
}

impl Split {
    pub open spec fn new_spec() -> Split {
        Split { count_state: cmd_count::State::NoCount }
    }

    pub fn new() -> (r: Split)
        ensures
            r == Split::new_spec(),
    {
        Split { count_state: cmd_count::State::NoCount }
    }

    pub fn name(&self) -> (r: String)
        ensures
            r@ == "SPLIT"@ + self.count_state.text(),
    {
        let mut name = String::from_str("SPLIT");
        let count = self.count_state.to_string();
        name.append(count.as_str());
        name
    }

    /// What becomes of each region when it is split into chunks.
    pub open spec fn chunk_images(regions: Seq<SelRegion>, step: int) -> Seq<Seq<SelRegion>> {
        Seq::new(regions.len(), |i: int| chunks_from(regions[i], regions[i].spec_min(), step))
    }

    /// Whether the selection is split into chunks of `step` bytes.
    pub open spec fn chunks(b: BufferView, step: int) -> bool {
        &&& step > 0
        &&& b.selection.can_map(Self::chunk_images(b.selection.regions, step))
        &&& images_bounded(Self::chunk_images(b.selection.regions, step), b.data.len() as int)
    }

    /// The buffer with the selection split into chunks of `step` bytes, or
    /// as it was where it is not.
    pub open spec fn chunked(b: BufferView, step: int) -> BufferView {
        if Self::chunks(b, step) {
            BufferView {
                selection: b.selection.mapped(Self::chunk_images(b.selection.regions, step)),
                ..b
            }
        } else {
            b
        }
    }

    /// What becomes of each region when the matches are cut out of it.
    pub open spec fn cut_images(regions: Seq<SelRegion>, matches: Seq<Seq<ByteInterval>>) -> Seq<
        Seq<SelRegion>,
    > {
        Seq::new(regions.len(), |i: int| cut_image(regions[i], matches[i]))
    }

    /// Whether the selection is split at `matches`: there is one list for
    /// each region, no match is empty, not every selected byte is matched,
    /// and what is left lies inside the document and can be merged.
    pub open spec fn splits(b: BufferView, matches: Seq<Seq<ByteInterval>>) -> bool {
        &&& matches.len() == b.selection.regions.len()
        &&& matches_proper(matches)
        &&& all_matched_len(matches, matches.len() as int) != b.selection.len_bytes()
        &&& b.selection.can_map(Self::cut_images(b.selection.regions, matches))
        &&& images_bounded(Self::cut_images(b.selection.regions, matches), b.data.len() as int)
    }

    /// The buffer with the selection split at `matches`, or as it was
    /// where it is not.
    pub open spec fn split(b: BufferView, matches: Seq<Seq<ByteInterval>>) -> BufferView {
        if Self::splits(b, matches) {
            BufferView {
                selection: b.selection.mapped(Self::cut_images(b.selection.regions, matches)),
                ..b
            }
        } else {
            b
        }
    }

    /// The chunks of one region.
    fn chunks_of(region: &SelRegion, step: usize) -> (r: Vec<SelRegion>)
        requires
            step > 0,
        ensures
            r@ == chunks_from(*region, region.spec_min(), step as int),
    {
        let max = region.max();
        let backward = region.leans_backward();
        let mut out: Vec<SelRegion> = Vec::new();
        let mut pos = region.min();
        loop
            invariant
                step > 0,
                region.spec_min() <= pos <= max,
                max == region.spec_max(),
                backward == region.spec_leans_backward(),
                chunks_from(*region, region.spec_min(), step as int) == out@ + chunks_from(
                    *region,
                    pos as int,
                    step as int,
                ),
            decreases max - pos,
        {
            let end: usize = if step - 1 < max - pos {
                pos + (step - 1)
            } else {
                max
            };
            let ghost before = out@;
            let chunk = SelRegion::new(pos, end).with_direction(backward);
            out.push(chunk);
            proof {
                let rest = chunks_from(*region, end + 1, step as int);
                assert(chunks_from(*region, pos as int, step as int) == seq![chunk] + rest);
                assert(before + (seq![chunk] + rest) =~= out@ + rest);
            }
            if end == max {
                proof {
                    assert(chunks_from(*region, end + 1, step as int) =~= Seq::<SelRegion>::empty());
                    assert(out@ + Seq::<SelRegion>::empty() =~= out@);
                }
                return out;
            }
            pos = end + 1;
        }
    }

    /// Splits every region of the buffer's selection into chunks of `step`
    /// bytes and asks for what changed to be drawn again.
    pub fn split_by_width(buffer: &mut Buffer, options: &mut ViewOptions, step: usize) -> (done:
        bool)
        requires
            old(buffer).wf(),
        ensures
            final(buffer).wf(),
            done == Self::chunks(old(buffer)@, step as int),
            final(buffer)@ == Self::chunked(old(buffer)@, step as int),
            options_kept(*old(options), *final(options)),
            !done ==> final(options).dirty == old(options).dirty,
    {
        if step == 0 {
            return false;
        }
        let regions = buffer.selection().iter();
        let ghost want = Self::chunk_images(regions@, step as int);
        let mut images: Vec<Vec<SelRegion>> = Vec::new();
        let mut i: usize = 0;
        while i < regions.len()
            invariant
                i <= regions.len(),
                step > 0,
                images@.len() == i,
                forall|j: int| 0 <= j < i ==> (#[trigger] images@[j])@ == want[j],
                want == Self::chunk_images(regions@, step as int),
            decreases regions.len() - i,
        {
            images.push(Self::chunks_of(&regions[i], step));
            i += 1;
        }
        assert(views(images@) =~= want);
        match buffer.try_map_selections(images) {
            Some(dirty) => {
                options.make_dirty(dirty);
                true
            },
            None => false,
        }
    }

    /// What is left of each region when the matches are cut out, and the
    /// number of bytes matched if that is a `usize`; `None` where a match
    /// is empty or the lists are not one for each region.
    fn cut_images_of(selection: &Selection, matches: &Vec<Vec<ByteInterval>>) -> (r: Option<
        (Vec<Vec<SelRegion>>, Option<usize>),
    >)
        ensures
            r is Some == (matches@.len() == selection@.regions.len() && matches_proper(
                match_views(matches@),
            )),
            r matches Some((images, total)) ==> views(images@) == Self::cut_images(
                selection@.regions,
                match_views(matches@),
            ) && match total {
                Some(n) => n == all_matched_len(match_views(matches@), matches@.len() as int),
                None => all_matched_len(match_views(matches@), matches@.len() as int) > usize::MAX,
            },
    {
        let regions = selection.iter();
        if matches.len() != regions.len() {
            return None;
        }
        let ghost ms = match_views(matches@);
        let ghost want = Self::cut_images(regions@, ms);
        let mut images: Vec<Vec<SelRegion>> = Vec::new();
        let mut total: Option<usize> = Some(0);
        let mut i: usize = 0;
        while i < regions.len()
            invariant
                i <= regions.len(),
                matches@.len() == regions@.len(),
                ms == match_views(matches@),
                want == Self::cut_images(regions@, ms),
                images@.len() == i,
                forall|j: int| 0 <= j < i ==> (#[trigger] images@[j])@ == want[j],
                forall|a: int, k: int|
                    0 <= a < i && 0 <= k < ms[a].len() ==> (#[trigger] ms[a][k]).start < ms[a][k].end,
                all_matched_len(ms, i as int) >= 0,
                match total {
                    Some(n) => n == all_matched_len(ms, i as int),
                    None => all_matched_len(ms, i as int) > usize::MAX,
                },
            decreases regions.len() - i,
        {
            let region = regions[i];
            let found = &matches[i];
            assert(ms[i as int] == found@);
            let mut out: Vec<SelRegion> = Vec::new();
            let mut base: Option<SelRegion> = Some(region);
            let mut sum: Option<usize> = Some(0);
            let mut k: usize = 0;
            while k < found.len()
                invariant
                    k <= found.len(),
                    i < regions.len(),
                    ms[i as int] == found@,
                    ms == match_views(matches@),
                    matches@.len() == regions@.len(),
                    region == regions@[i as int],
                    (Cut { pieces: out@, rest: base }) == cut(region, found@, k as int),
                    forall|j: int| 0 <= j < k ==> (#[trigger] found@[j]).start < found@[j].end,
                    matched_len(found@, k as int) >= 0,
                    match sum {
                        Some(n) => n == matched_len(found@, k as int),
                        None => matched_len(found@, k as int) > usize::MAX,
                    },
                decreases found.len() - k,
            {
                let m = found[k];
                if m.start >= m.end {
                    assert(!matches_proper(ms)) by {
                        assert(!(ms[i as int][k as int].start < ms[i as int][k as int].end));
                    }
                    return None;
                }
                sum = match sum {
                    Some(n) => n.checked_add(m.end - m.start),
                    None => None,
                };
                match base {
                    Some(b) => {
                        let (left_region, right_region) = b.split_at_region(m.start, m.end - 1);
                        match left_region {
                            Some(left) => {
                                out.push(left);
                            },
                            None => {},
                        }
                        base = right_region;
                    },
                    None => {},
                }
                k += 1;
            }
            match base {
                Some(rest) => {
                    out.push(rest);
                },
                None => {},
            }
            assert(out@ =~= want[i as int]);
            images.push(out);
            total = match (total, sum) {
                (Some(a), Some(b)) => a.checked_add(b),
                _ => None,
            };
            i += 1;
        }
        assert(views(images@) =~= want);
        Some((images, total))
    }

    /// Cuts `matches`, which holds the matches inside each region, out of
    /// the selection of `buffer` and asks for what changed to be drawn
    /// again. Where every selected byte is matched, or where what is left
    /// cannot be selected, nothing changes.
    pub fn split_at(buffer: &mut Buffer, options: &mut ViewOptions, matches: &Vec<Vec<ByteInterval>>) -> (done:
        bool)
        requires
            old(buffer).wf(),
        ensures
            final(buffer).wf(),
            done == Self::splits(old(buffer)@, match_views(matches@)),
            final(buffer)@ == Self::split(old(buffer)@, match_views(matches@)),
            options_kept(*old(options), *final(options)),
            !done ==> final(options).dirty == old(options).dirty,
    {
        proof {
            buffer.lemma_wf();
        }
        match Self::cut_images_of(buffer.selection(), matches) {
            Some((images, total)) => {
                proof {
                    crate::modes::split::lemma_len_bytes_bound(
                        buffer@.selection.regions,
                        buffer@.selection.regions.len() as int,
                        buffer@.data.len() as int,
                    );
                }
                let selected = buffer.selection().len_bytes();
                let all_matched = match total {
                    Some(n) => n == selected,
                    None => false,
                };
                if all_matched {
                    // Everything selected was matched: splitting would leave
                    // no selection at all.
                    return false;
                }
                match buffer.try_map_selections(images) {
                    Some(dirty) => {
                        options.make_dirty(dirty);
                        true
                    },
                    None => false,
                }
            },
            None => false,
        }
    }

    /// Splits the selection of the current buffer at the matches of
    /// `pattern` and leads back to normal mode.
    pub fn apply_search(&self, pattern: Pattern, buffers: &mut Buffers, options: &mut ViewOptions) -> (r:
        ModeTransition)
        requires
            old(buffers).wf(),
        ensures
            final(buffers).wf(),
            layout_kept(*old(options), *final(options)),
            r.is_new_mode(Mode::Normal(Normal::new_spec())),
            final(buffers)@.current == old(buffers)@.current,
            final(buffers)@.list == old(buffers)@.list.update(
                old(buffers)@.current,
                if pattern.pieces@.len() == 0 {
                    old(buffers)@.list[old(buffers)@.current]
                } else {
                    Self::split(
                        old(buffers)@.list[old(buffers)@.current],
                        selection_matches(
                            pattern.pieces@,
                            old(buffers)@.list[old(buffers)@.current],
                        ),
                    )
                },
            ),
    {
        let buffer = buffers.current_mut();
        if pattern.pieces.len() == 0 {
            return ModeTransition::new_mode(Mode::Normal(Normal::new()));
        }
        let matched_ranges = pattern.map_selections_to_matches(buffer);
        assert(match_views(matched_ranges@) =~= selection_matches(pattern.pieces@, buffer@));
        Self::split_at(buffer, options, &matched_ranges);
        ModeTransition::new_mode(Mode::Normal(Normal::new()))
    }

    /// The pattern of `count` zero bytes.
    fn null_pattern(count: usize) -> (r: Pattern)
        ensures
            r.pieces@ == Seq::new(count as nat, |i: int| PatternPiece::Literal(0)),
    {
        let mut pieces: Vec<PatternPiece> = Vec::new();
        let mut i: usize = 0;
        while i < count
            invariant
                i <= count,
                pieces@ == Seq::new(i as nat, |j: int| PatternPiece::Literal(0)),
            decreases count - i,
        {
            pieces.push(PatternPiece::Literal(0));
            assert(pieces@ =~= Seq::new((i + 1) as nat, |j: int| PatternPiece::Literal(0)));
            i += 1;
        }
        Pattern { pieces }
    }

    /// The width of the chunks for a width and a count, or the largest
    /// size where the product does not fit: chunks that large hold any
    /// region whole.
    pub open spec fn step(width: usize, count: usize) -> usize {
        if width * count <= usize::MAX {
            (width * count) as usize
        } else {
            usize::MAX
        }
    }

    /// What the mode answers to an event. A key of the count changes the
    /// count. A width splits the selection of the current buffer into
    /// chunks and leads to normal mode; `n` splits it at runs of as many
    /// zero bytes as the count says; `/` and `?` lead to the prompt for a
    /// pattern. Any other key leads to normal mode, and what is no key is
    /// not for this mode.
    pub open spec fn answers(
        self,
        event: Event,
        before: BuffersView,
        r: ModeTransition,
        after: BuffersView,
    ) -> bool {
        let current = before.list[before.current];
        match self.count_state.after(event) {
            cmd_count::Transition::Update(count_state) => after == before && r.is_new_mode(
                Mode::Split(Split { count_state }),
            ),
            cmd_count::Transition::NotHandled => match bound_action(bindings(), event) {
                Some(Action::Width(width)) => {
                    &&& r.is_new_mode(Mode::Normal(Normal::new_spec()))
                    &&& after.current == before.current
                    &&& after.list == before.list.update(
                        before.current,
                        Self::chunked(
                            current,
                            Self::step(width, self.count_state.spec_to_count()) as int,
                        ),
                    )
                },
                Some(Action::Null) => {
                    &&& r.is_new_mode(Mode::Normal(Normal::new_spec()))
                    &&& after.current == before.current
                    &&& after.list == before.list.update(
                        before.current,
                        if self.count_state.spec_to_count() == 0 {
                            current
                        } else {
                            Self::split(
                                current,
                                selection_matches(
                                    Seq::new(
                                        self.count_state.spec_to_count() as nat,
                                        |i: int| PatternPiece::Literal(0),
                                    ),
                                    current,
                                ),
                            )
                        },
                    )
                },
                Some(Action::Search { hex }) => after == before && r.is_search(
                    crate::modes::search::SearchView {
                        pieces: Seq::empty(),
                        cursor: 0,
                        hex,
                        hex_half: None,
                        next: SearchAcceptor::Split(self),
                    },
                ),
                None => after == before && if event is Key {
                    r.is_new_mode(Mode::Normal(Normal::new_spec()))
                } else {
                    r == ModeTransition::NotHandled(Mode::Split(self))
                },
            },
        }
    }

    pub fn transition(self, evt: &Event, buffers: &mut Buffers, options: &mut ViewOptions) -> (r:
        ModeTransition)
        requires
            old(buffers).wf(),
        ensures
            final(buffers).wf(),
            layout_kept(*old(options), *final(options)),
            self.answers(*evt, old(buffers)@, r, final(buffers)@),
    {
        match self.count_state.transition(evt) {
            cmd_count::Transition::Update(new_state) => {
                return ModeTransition::new_mode(Mode::Split(Split { count_state: new_state }));
            },
            cmd_count::Transition::NotHandled => {},
        }
        match default_maps().event_to_action(evt) {
            Some(action) => {
                let count = self.count_state.to_count();
                match action {
                    Action::Width(width) => {
                        let step = match width.checked_mul(count) {
                            Some(product) => product,
                            None => usize::MAX,
                        };
                        let buffer = buffers.current_mut();
                        Self::split_by_width(buffer, options, step);
                        ModeTransition::new_mode(Mode::Normal(Normal::new()))
                    },
                    Action::Null => self.apply_search(Self::null_pattern(count), buffers, options),
                    Action::Search { hex } => ModeTransition::new_mode(
                        Mode::Search(Search::new(SearchAcceptor::Split(self), hex)),
                    ),
                }
            },
            None => {
                match evt {
                    Event::Key(_) => ModeTransition::new_mode(Mode::Normal(Normal::new())),
                    _ => ModeTransition::not_handled(Mode::Split(self)),
                }
            },
        }
    }
}

/// The regions of a selection inside a document of `len` bytes cover, up
/// to the `n`th, no more than the bytes up to the end of the last of them.
pub proof fn lemma_len_bytes_bound(regions: Seq<SelRegion>, n: int, len: int)
    requires
        crate::selection::sorted_disjoint(regions),
        crate::selection::all_bounded(regions, len),
        0 <= n <= regions.len(),
        0 <= len,
    ensures
        0 <= total_len(regions, n) <= if n == 0 {
            0
        } else {
            regions[n - 1].spec_max() + 1
        },
        total_len(regions, n) <= len + 1,
    decreases n,
{
    if n > 0 {
        lemma_len_bytes_bound(regions, n - 1, len);
        assert(regions[n - 1].bounded(len));
        if n > 1 {
            assert(regions[n - 2].spec_max() < regions[n - 1].spec_min());
        }
    }
}

} // verus!
