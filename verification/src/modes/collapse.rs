//! Collapsing the selection onto the matches of a pattern: every region
//! gives way to the places inside it where the pattern matches.

use crate::buffer::{Buffer, BufferView, Buffers, ByteInterval};
use crate::modes::mode::{layout_kept, options_kept, Mode, ModeTransition};
use crate::modes::normal::Normal;
use crate::modes::search::{region_matches, Pattern, PatternPiece};
use crate::selection::{images_bounded, views, SelRegion, Selection};
use crate::view::view_options::ViewOptions;
use vstd::prelude::*;

verus! {

/// Takes a pattern and selects its matches.
#[derive(Debug, PartialEq, Eq, Clone, Copy, Structural)]
pub struct Collapse();

/// The views of a list of lists of matches.
pub open spec fn match_views(matches: Seq<Vec<ByteInterval>>) -> Seq<Seq<ByteInterval>> {
    Seq::new(matches.len(), |i: int| matches[i]@)
}

/// Where the pattern matches inside each region.
pub open spec fn selection_matches(pieces: Seq<PatternPiece>, b: BufferView) -> Seq<
    Seq<ByteInterval>,
> {
    Seq::new(
        b.selection.regions.len(),
        |i: int| region_matches(pieces, b.data, b.selection.regions[i]),
    )
}

/// No match is empty.
pub open spec fn matches_proper(matches: Seq<Seq<ByteInterval>>) -> bool {
    forall|i: int, k: int|
        0 <= i < matches.len() && 0 <= k < matches[i].len() ==> (#[trigger] matches[i][k]).start
            < matches[i][k].end
}

/// There is a match.
pub open spec fn any_match(matches: Seq<Seq<ByteInterval>>) -> bool {
    exists|i: int| 0 <= i < matches.len() && (#[trigger] matches[i]).len() > 0
}

/// The region that selects a match, running as `parent` does.
pub open spec fn match_region(m: ByteInterval, parent: SelRegion) -> SelRegion {
    (SelRegion { caret: m.start, tail: (m.end - 1) as usize, main: false }).spec_inherit_direction(
        parent,
    )
}

impl Collapse {
    pub fn name(&self) -> (r: String)
        ensures
            r@ == "COLLAPSE"@,
    {
        "COLLAPSE".to_owned()
    }

    /// What becomes of each region: the regions of the matches inside it.
    pub open spec fn images(regions: Seq<SelRegion>, matches: Seq<Seq<ByteInterval>>) -> Seq<
        Seq<SelRegion>,
    > {
        Seq::new(
            regions.len(),
            |i: int| Seq::new(matches[i].len(), |k: int| match_region(matches[i][k], regions[i])),
        )
    }

    /// Whether the selection is collapsed onto `matches`: there is one
    /// list for each region, no match is empty, there is a match, and the
    /// regions of the matches lie inside the document and can be merged.
    pub open spec fn collapses(b: BufferView, matches: Seq<Seq<ByteInterval>>) -> bool {
        &&& matches.len() == b.selection.regions.len()
        &&& matches_proper(matches)
        &&& any_match(matches)
        &&& b.selection.can_map(Self::images(b.selection.regions, matches))
        &&& images_bounded(Self::images(b.selection.regions, matches), b.data.len() as int)
    }

    /// The buffer with the selection collapsed onto `matches`, or as it
    /// was where it is not.
    pub open spec fn collapsed(b: BufferView, matches: Seq<Seq<ByteInterval>>) -> BufferView {
        if Self::collapses(b, matches) {
            BufferView {
                selection: b.selection.mapped(Self::images(b.selection.regions, matches)),
                ..b
            }
        } else {
            b
        }
    }

    /// The regions of the matches, or `None` where a match is empty or the
    /// lists are not one for each region. Says also whether there is a
    /// match.
    fn images_of(selection: &Selection, matches: &Vec<Vec<ByteInterval>>) -> (r: Option<
        (Vec<Vec<SelRegion>>, bool),
    >)
        ensures
            r is Some == (matches@.len() == selection@.regions.len() && matches_proper(
                match_views(matches@),
            )),
            r matches Some((images, any)) ==> views(images@) == Self::images(
                selection@.regions,
                match_views(matches@),
            ) && any == any_match(match_views(matches@)),
    {
        let regions = selection.iter();
        if matches.len() != regions.len() {
            return None;
        }
        let ghost ms = match_views(matches@);
        let ghost want = Self::images(regions@, ms);
        let mut images: Vec<Vec<SelRegion>> = Vec::new();
        let mut any = false;
        let mut i: usize = 0;
        while i < regions.len()
            invariant
                i <= regions.len(),
                matches@.len() == regions@.len(),
                ms == match_views(matches@),
                want == Self::images(regions@, ms),
                images@.len() == i,
                forall|j: int| 0 <= j < i ==> (#[trigger] images@[j])@ == want[j],
                forall|a: int, k: int|
                    0 <= a < i && 0 <= k < ms[a].len() ==> (#[trigger] ms[a][k]).start < ms[a][k].end,
                any == exists|a: int| 0 <= a < i && (#[trigger] ms[a]).len() > 0,
            decreases regions.len() - i,
        {
            let region = regions[i];
            let found = &matches[i];
            assert(ms[i as int] == found@);
            let mut image: Vec<SelRegion> = Vec::new();
            let mut k: usize = 0;
            while k < found.len()
                invariant
                    k <= found.len(),
                    i < regions.len(),
                    ms[i as int] == found@,
                    region == regions@[i as int],
                    want == Self::images(regions@, ms),
                    matches@.len() == regions@.len(),
                    ms == match_views(matches@),
                    image@.len() == k,
                    forall|j: int| 0 <= j < k ==> #[trigger] image@[j] == want[i as int][j],
                    forall|j: int| 0 <= j < k ==> (#[trigger] found@[j]).start < found@[j].end,
                decreases found.len() - k,
            {
                let m = found[k];
                if m.start >= m.end {
                    assert(!matches_proper(ms)) by {
                        assert(!(ms[i as int][k as int].start < ms[i as int][k as int].end));
                    }
                    return None;
                }
                image.push(SelRegion::new(m.start, m.end - 1).inherit_direction(&region));
                k += 1;
            }
            if found.len() > 0 {
                any = true;
            }
            assert(image@ =~= want[i as int]);
            images.push(image);
            i += 1;
        }
        assert(views(images@) =~= want);
        Some((images, any))
    }

    /// Collapses the selection of `buffer` onto `matches`, which holds the
    /// matches inside each region, and asks for what changed to be drawn
    /// again. Without a match, or where the matches cannot be selected,
    /// nothing changes.
    pub fn collapse_to(buffer: &mut Buffer, options: &mut ViewOptions, matches: &Vec<Vec<ByteInterval>>) -> (done:
        bool)
        requires
            old(buffer).wf(),
        ensures
            final(buffer).wf(),
            done == Self::collapses(old(buffer)@, match_views(matches@)),
            final(buffer)@ == Self::collapsed(old(buffer)@, match_views(matches@)),
            options_kept(*old(options), *final(options)),
            !done ==> final(options).dirty == old(options).dirty,
    {
        match Self::images_of(buffer.selection(), matches) {
            Some((images, any)) => {
                if !any {
                    // Nothing selected was matched: collapsing would leave no
                    // selection at all.
                    return false;
                }
                match buffer.try_map_selections(images) {
                    Some(dirty) => {
                        options.make_dirty(dirty);
                        true
                    },
                    None => false,
                }
            },
            None => false,
        }
    }

    /// Selects the matches of `pattern` in the current buffer, if there
    /// are any, and leads back to normal mode.
    pub fn apply_search(&self, pattern: Pattern, buffers: &mut Buffers, options: &mut ViewOptions) -> (r:
        ModeTransition)
        requires
            old(buffers).wf(),
        ensures
            final(buffers).wf(),
            layout_kept(*old(options), *final(options)),
            r.is_new_mode(Mode::Normal(Normal::new_spec())),
            final(buffers)@.current == old(buffers)@.current,
            final(buffers)@.list == old(buffers)@.list.update(
                old(buffers)@.current,
                if pattern.pieces@.len() == 0 {
                    old(buffers)@.list[old(buffers)@.current]
                } else {
                    Self::collapsed(
                        old(buffers)@.list[old(buffers)@.current],
                        selection_matches(
                            pattern.pieces@,
                            old(buffers)@.list[old(buffers)@.current],
                        ),
                    )
                },
            ),
    {
        let buffer = buffers.current_mut();
        if pattern.pieces.len() == 0 {
            return ModeTransition::new_mode(Mode::Normal(Normal::new()));
        }
        let matched_ranges = pattern.map_selections_to_matches(buffer);
        assert(match_views(matched_ranges@) =~= selection_matches(pattern.pieces@, buffer@));
        Self::collapse_to(buffer, options, &matched_ranges);
        ModeTransition::new_mode(Mode::Normal(Normal::new()))
    }
}

} // verus!
