//! A buffer binds a document to its selection, its registers and its
//! history, and is the one place where an edit changes all of them together.
//! The collection of buffers holds the documents that are open.

use crate::byte_rope::Rope;
use crate::delta::{lemma_image_len, Piece, RopeDelta, MAX_DOCUMENT_LEN};
use crate::history::{image, History, HistoryView, Snapshot};
use crate::operations::byte_views;
use crate::selection::{
    all_bounded, images_agree, images_bounded, images_present, int_min, views, SelRegion,
    Selection, SelectionView,
};
use std::collections::HashMap;
use vstd::prelude::*;

verus! {

broadcast use vstd::std_specs::hash::group_hash_axioms;

/// Which ends of the last region stand past the last byte of the document.
#[derive(Debug, PartialEq, Eq, Clone, Copy, Hash, Structural)]
pub enum OverflowSelectionStyle {
    Cursor,
    Tail,
    CursorTail,
}

/// The bytes from `start` up to, but without, `end`.
#[derive(Debug, PartialEq, Eq, Clone, Copy, Structural)]
pub struct ByteInterval {
    pub start: usize,
    pub end: usize,
}

impl ByteInterval {
    pub open spec fn holds(self, p: int) -> bool {
        self.start <= p < self.end
    }

    /// The bytes of a region.
    pub open spec fn of_region(r: SelRegion) -> ByteInterval {
        ByteInterval { start: r.spec_min() as usize, end: (r.spec_max() + 1) as usize }
    }

    pub fn new(start: usize, end: usize) -> (r: ByteInterval)
        ensures
            r == (ByteInterval { start, end }),
    {
        ByteInterval { start, end }
    }

    pub fn contains(&self, p: usize) -> (r: bool)
        ensures
            r == self.holds(p as int),
    {
        self.start <= p && p < self.end
    }

    pub fn is_empty(&self) -> (r: bool)
        ensures
            r == (self.end <= self.start),
    {
        self.end <= self.start
    }

    /// The interval of the bytes of a region that ends before the largest
    /// offset.
    pub fn from_region(r: &SelRegion) -> (iv: ByteInterval)
        requires
            r.spec_max() < usize::MAX,
        ensures
            iv == ByteInterval::of_region(*r),
    {
        ByteInterval { start: r.min(), end: r.max() + 1 }
    }
}

/// What a change asks to be drawn again.
#[derive(Debug, PartialEq, Eq, Clone)]
pub enum DirtyBytes {
    /// The bytes of these intervals look different; the intervals are in
    /// ascending order and do not overlap.
    ChangeInPlace(Vec<ByteInterval>),
    /// The length of the document changed: everything is drawn again.
    ChangeLength,
}

/// No interval ends before it starts, and the intervals come in ascending
/// order and do not overlap.
pub open spec fn ordered(intervals: Seq<ByteInterval>) -> bool {
    &&& forall|i: int| 0 <= i < intervals.len() ==> (#[trigger] intervals[i]).start <= intervals[i].end
    &&& forall|i: int, j: int|
        0 <= i < j < intervals.len() ==> (#[trigger] intervals[i]).end <= (
        #[trigger] intervals[j]).start
}

impl DirtyBytes {
    /// The intervals of a change in place are in ascending order and do
    /// not overlap.
    pub open spec fn wf(self) -> bool {
        match self {
            DirtyBytes::ChangeInPlace(intervals) => ordered(intervals@),
            DirtyBytes::ChangeLength => true,
        }
    }
}

/// Some interval of the list holds the offset `p`.
pub open spec fn covered(intervals: Seq<ByteInterval>, p: int) -> bool {
    exists|i: int| 0 <= i < intervals.len() && (#[trigger] intervals[i]).holds(p)
}

/// The intervals are not empty, come in ascending order and do not overlap.
pub open spec fn ascending(intervals: Seq<ByteInterval>) -> bool {
    &&& forall|i: int| 0 <= i < intervals.len() ==> (#[trigger] intervals[i]).start < intervals[i].end
    &&& forall|i: int, j: int|
        0 <= i < j < intervals.len() ==> (#[trigger] intervals[i]).end <= (
        #[trigger] intervals[j]).start
}

/// The intervals are not empty and ordered by where they start.
pub open spec fn by_start(intervals: Seq<ByteInterval>) -> bool {
    &&& forall|i: int| 0 <= i < intervals.len() ==> (#[trigger] intervals[i]).start < intervals[i].end
    &&& forall|i: int, j: int|
        0 <= i < j < intervals.len() ==> (#[trigger] intervals[i]).start <= (
        #[trigger] intervals[j]).start
}

/// `inner` lies inside `outer`.
pub open spec fn within(inner: ByteInterval, outer: ByteInterval) -> bool {
    outer.start <= inner.start && inner.end <= outer.end
}

/// `inner` lies inside one of `outer`.
pub open spec fn inside(inner: ByteInterval, outer: Seq<ByteInterval>) -> bool {
    exists|j: int| 0 <= j < outer.len() && within(inner, #[trigger] outer[j])
}

/// Every interval of `inner` lies inside one of `outer`.
pub open spec fn enclosed(inner: Seq<ByteInterval>, outer: Seq<ByteInterval>) -> bool {
    forall|i: int| 0 <= i < inner.len() ==> inside(#[trigger] inner[i], outer)
}

/// The intervals in the order of where they start; of two that start at the
/// same offset the one that came first stays first.
fn sorted_by_start(intervals: &Vec<ByteInterval>) -> (r: Vec<ByteInterval>)
    requires
        forall|i: int| 0 <= i < intervals@.len() ==> (#[trigger] intervals@[i]).start
            < intervals@[i].end,
    ensures
        by_start(r@),
        r@.len() == intervals@.len(),
        forall|p: int| covered(r@, p) == covered(intervals@, p),
        enclosed(intervals@, r@),
{
    let mut sorted: Vec<ByteInterval> = Vec::new();
    let mut i: usize = 0;
    while i < intervals.len()
        invariant
            i <= intervals.len(),
            sorted@.len() == i,
            by_start(sorted@),
            forall|k: int| 0 <= k < intervals@.len() ==> (#[trigger] intervals@[k]).start
                < intervals@[k].end,
            forall|p: int| covered(sorted@, p) == covered(intervals@.take(i as int), p),
            enclosed(intervals@.take(i as int), sorted@),
        decreases intervals.len() - i,
    {
        let x = intervals[i];
        let mut j: usize = 0;
        while j < sorted.len() && sorted[j].start <= x.start
            invariant
                j <= sorted.len(),
                by_start(sorted@),
                forall|k: int| 0 <= k < j ==> (#[trigger] sorted@[k]).start <= x.start,
            decreases sorted.len() - j,
        {
            j += 1;
        }
        let ghost before = sorted@;
        sorted.insert(j, x);
        proof {
            let after = sorted@;
            let taken = intervals@.take(i as int);
            let more = intervals@.take(i as int + 1);
            assert(after == before.insert(j as int, x));
            assert(more == taken.push(x));
            assert forall|a: int, b: int| 0 <= a < b < after.len() implies (
            #[trigger] after[a]).start <= (#[trigger] after[b]).start by {
                let oa = if a < j { a } else { a - 1 };
                let ob = if b < j { b } else { b - 1 };
                if a != j && b != j {
                    assert(before[oa].start <= before[ob].start);
                } else if a == j {
                    assert(before[ob].start >= x.start || ob < j);
                } else {
                    assert(before[oa].start <= x.start);
                }
            }
            assert forall|k: int| 0 <= k < after.len() implies (#[trigger] after[k]).start
                < after[k].end by {
                if k != j {
                    let ok = if k < j { k } else { k - 1 };
                    assert(before[ok].start < before[ok].end);
                }
            }
            assert forall|p: int| covered(after, p) == covered(more, p) by {
                if covered(after, p) {
                    let k = choose|k: int| 0 <= k < after.len() && (#[trigger] after[k]).holds(p);
                    if k == j {
                        assert(more[i as int].holds(p));
                    } else {
                        let ok = if k < j { k } else { k - 1 };
                        assert(before[ok].holds(p));
                        assert(covered(before, p));
                        let t = choose|t: int| 0 <= t < taken.len() && (#[trigger] taken[t]).holds(p);
                        assert(more[t].holds(p));
                    }
                }
                if covered(more, p) {
                    let t = choose|t: int| 0 <= t < more.len() && (#[trigger] more[t]).holds(p);
                    if t == i {
                        assert(after[j as int].holds(p));
                    } else {
                        assert(taken[t].holds(p));
                        assert(covered(taken, p));
                        assert(covered(before, p));
                        let k = choose|k: int| 0 <= k < before.len() && (#[trigger] before[k]).holds(p);
                        let nk = if k < j { k } else { k + 1 };
                        assert(after[nk].holds(p));
                    }
                }
            }
            assert forall|t: int| 0 <= t < more.len() implies inside(#[trigger] more[t], after) by {
                if t == i {
                    assert(within(more[t], after[j as int]));
                } else {
                    assert(taken[t] == more[t]);
                    assert(inside(taken[t], before));
                    let k = choose|k: int|
                        0 <= k < before.len() && within(taken[t], #[trigger] before[k]);
                    let nk = if k < j { k } else { k + 1 };
                    assert(within(more[t], after[nk]));
                }
            }
        }
        i += 1;
    }
    assert(intervals@.take(i as int) == intervals@);
    sorted
}

/// The intervals joined where they overlap: in ascending order, without
/// overlap, covering exactly the bytes that the given intervals cover, each
/// of which lies inside one of them.
pub fn coalesce(intervals: &Vec<ByteInterval>) -> (r: Vec<ByteInterval>)
    requires
        forall|i: int| 0 <= i < intervals@.len() ==> (#[trigger] intervals@[i]).start
            < intervals@[i].end,
    ensures
        ascending(r@),
        forall|p: int| covered(r@, p) == covered(intervals@, p),
        enclosed(intervals@, r@),
{
    let sorted = sorted_by_start(intervals);
    let mut out: Vec<ByteInterval> = Vec::new();
    let mut i: usize = 0;
    while i < sorted.len()
        invariant
            i <= sorted.len(),
            by_start(sorted@),
            ascending(out@),
            i > 0 ==> out@.len() > 0,
            out@.len() > 0 && i < sorted@.len() ==> out@.last().start <= sorted@[i as int].start,
            forall|p: int| covered(out@, p) == covered(sorted@.take(i as int), p),
            enclosed(sorted@.take(i as int), out@),
        decreases sorted.len() - i,
    {
        let r = sorted[i];
        let ghost before = out@;
        let ghost taken = sorted@.take(i as int);
        let ghost more = sorted@.take(i as int + 1);
        assert(more == taken.push(r));
        let joined = out.len() > 0 && out[out.len() - 1].contains(r.start);
        if joined {
            let last = out[out.len() - 1];
            let end = if last.end >= r.end {
                last.end
            } else {
                r.end
            };
            let n = out.len() - 1;
            out.set(n, ByteInterval { start: last.start, end });
        } else {
            out.push(r);
        }
        proof {
            let after = out@;
            let n = after.len() - 1;
            assert(sorted@[i as int].start < sorted@[i as int].end);
            assert forall|a: int, b: int| 0 <= a < b < after.len() implies (
            #[trigger] after[a]).end <= (#[trigger] after[b]).start by {
                if b < n {
                    assert(before[a].end <= before[b].start);
                } else if joined {
                    assert(before[a].end <= before[b].start);
                } else {
                    if before.len() > 0 {
                        if a < before.len() - 1 {
                            assert(before[a].end <= before[before.len() - 1].start);
                        }
                    }
                }
            }
            assert forall|k: int| 0 <= k < after.len() implies (#[trigger] after[k]).start
                < after[k].end by {
                if k < n {
                    assert(before[k].start < before[k].end);
                } else if joined {
                    assert(before[k].start < before[k].end);
                }
            }
            assert forall|p: int| covered(after, p) == covered(more, p) by {
                if covered(after, p) {
                    let k = choose|k: int| 0 <= k < after.len() && (#[trigger] after[k]).holds(p);
                    if k < n || (joined && before[n].holds(p)) {
                        assert(before[k].holds(p));
                        assert(covered(before, p));
                        let t = choose|t: int| 0 <= t < taken.len() && (#[trigger] taken[t]).holds(p);
                        assert(more[t].holds(p));
                    } else {
                        assert(more[i as int].holds(p));
                    }
                }
                if covered(more, p) {
                    let t = choose|t: int| 0 <= t < more.len() && (#[trigger] more[t]).holds(p);
                    if t == i {
                        assert(after[n].holds(p));
                    } else {
                        assert(taken[t].holds(p));
                        assert(covered(taken, p));
                        let k = choose|k: int| 0 <= k < before.len() && (#[trigger] before[k]).holds(p);
                        assert(after[k].holds(p));
                    }
                }
            }
            assert forall|t: int| 0 <= t < more.len() implies inside(#[trigger] more[t], after) by {
                if t == i {
                    assert(within(more[t], after[n]));
                } else {
                    assert(taken[t] == more[t]);
                    assert(inside(taken[t], before));
                    let k = choose|k: int|
                        0 <= k < before.len() && within(taken[t], #[trigger] before[k]);
                    assert(within(more[t], after[k]));
                }
            }
            if i + 1 < sorted@.len() {
                assert(sorted@[i as int].start <= sorted@[i as int + 1].start);
            }
        }
        i += 1;
    }
    proof {
        assert(sorted@.take(i as int) == sorted@);
        assert forall|t: int| 0 <= t < intervals@.len() implies inside(
            #[trigger] intervals@[t],
            out@,
        ) by {
            assert(inside(intervals@[t], sorted@));
            let s = choose|s: int|
                0 <= s < sorted@.len() && within(intervals@[t], #[trigger] sorted@[s]);
            assert(inside(sorted@[s], out@));
            let k = choose|k: int| 0 <= k < out@.len() && within(sorted@[s], #[trigger] out@[k]);
            assert(within(intervals@[t], out@[k]));
        }
    }
    out
}


/// What a buffer holds.
pub struct BufferView {
    pub path: Option<Seq<char>>,
    pub data: Seq<u8>,
    pub selection: SelectionView,
    /// The contents of the registers, by the code of the register's name.
    pub registers: Map<u32, Seq<Seq<u8>>>,
    pub dirty: bool,
    pub history: HistoryView,
}

/// The bytes of each region, as far as the document reaches.
pub open spec fn yanked(data: Seq<u8>, regions: Seq<SelRegion>) -> Seq<Seq<u8>> {
    Seq::new(
        regions.len(),
        |i: int|
            data.subrange(regions[i].spec_min(), int_min(regions[i].spec_max() + 1, data.len() as int)),
    )
}

/// The intervals of the bytes of each region.
pub open spec fn region_intervals(regions: Seq<SelRegion>) -> Seq<ByteInterval> {
    Seq::new(regions.len(), |i: int| ByteInterval::of_region(regions[i]))
}

/// Some region of some image holds the offset `p`.
pub open spec fn images_cover(images: Seq<Seq<SelRegion>>, p: int) -> bool {
    exists|i: int, j: int|
        0 <= i < images.len() && 0 <= j < images[i].len() && ByteInterval::of_region(
            #[trigger] images[i][j],
        ).holds(p)
}

impl BufferView {
    /// A buffer as it is made for no file: empty and clean, without a
    /// path, with one cursor on the first byte, no registers and no
    /// history.
    pub open spec fn fresh() -> BufferView {
        BufferView {
            path: None,
            data: Seq::empty(),
            selection: SelectionView::initial(),
            registers: Map::empty(),
            dirty: false,
            history: HistoryView { undo: Seq::empty(), redo: Seq::empty(), partial: None },
        }
    }

    /// The state that undoing an edit made now leads back to.
    pub open spec fn snapshot(self) -> Snapshot {
        Snapshot { data: self.data, selection: self.selection }
    }

    /// Whether the selection can follow an edit.
    pub open spec fn can_follow(self, pieces: Seq<Piece>, caret_offset: int, tail_offset: int) -> bool {
        self.selection.can_follow(
            pieces,
            self.data.len() as int,
            crate::history::total_len(pieces),
            caret_offset,
            tail_offset,
        )
    }

    /// The document and the selection after an edit; the history as `history`.
    pub open spec fn edited(
        self,
        pieces: Seq<Piece>,
        caret_offset: int,
        tail_offset: int,
        history: HistoryView,
    ) -> BufferView {
        BufferView {
            path: self.path,
            data: image(pieces, self.data),
            selection: self.selection.followed(
                pieces,
                self.data.len() as int,
                crate::history::total_len(pieces),
                caret_offset,
                tail_offset,
            ),
            registers: self.registers,
            dirty: true,
            history,
        }
    }

    /// The buffer after an edit that is one step to undo.
    pub open spec fn applied(self, pieces: Seq<Piece>, caret_offset: int, tail_offset: int) -> BufferView {
        self.edited(
            pieces,
            caret_offset,
            tail_offset,
            HistoryView {
                undo: self.history.undo.push(self.snapshot()),
                redo: Seq::empty(),
                partial: None,
            },
        )
    }

    /// The buffer after an edit in place, which is one step to undo and
    /// leaves the selection where it is.
    pub open spec fn applied_in_place(self, pieces: Seq<Piece>) -> BufferView {
        BufferView {
            data: image(pieces, self.data),
            dirty: true,
            history: HistoryView {
                undo: self.history.undo.push(self.snapshot()),
                redo: Seq::empty(),
                partial: None,
            },
            ..self
        }
    }

    /// The document after an edit in place, with the selection where it
    /// is; the history as `history`.
    pub open spec fn kept(self, pieces: Seq<Piece>, history: HistoryView) -> BufferView {
        BufferView { data: image(pieces, self.data), dirty: true, history, ..self }
    }

    /// The history after an edit of a run of incomplete edits: the run
    /// leads back to the state at which it began, which is this one if no
    /// run was under way.
    pub open spec fn run_history(self) -> HistoryView {
        HistoryView {
            undo: self.history.undo,
            redo: self.history.redo,
            partial: Some(
                match self.history.partial {
                    Some(start) => start,
                    None => self.snapshot(),
                },
            ),
        }
    }

    /// The buffer after an edit of a run of incomplete edits, the first
    /// of the run or a later one.
    pub open spec fn begun(self, pieces: Seq<Piece>, caret_offset: int, tail_offset: int) -> BufferView {
        self.edited(pieces, caret_offset, tail_offset, self.run_history())
    }

    /// The buffer after an edit in place of a run of incomplete edits.
    pub open spec fn begun_in_place(self, pieces: Seq<Piece>) -> BufferView {
        self.kept(pieces, self.run_history())
    }

    /// The buffer after the run of incomplete edits, if any, was made one
    /// step to undo.
    pub open spec fn committed(self) -> BufferView {
        match self.history.partial {
            None => self,
            Some(start) => BufferView {
                history: HistoryView {
                    undo: self.history.undo.push(start),
                    redo: Seq::empty(),
                    partial: None,
                },
                ..self
            },
        }
    }

    /// The buffer after the last step was undone, if there is one.
    pub open spec fn undone(self) -> BufferView {
        if self.history.undo.len() == 0 {
            self
        } else {
            BufferView {
                data: self.history.undo.last().data,
                selection: self.history.undo.last().selection,
                dirty: true,
                history: HistoryView {
                    undo: self.history.undo.drop_last(),
                    redo: self.history.redo.push(self.snapshot()),
                    partial: self.history.partial,
                },
                ..self
            }
        }
    }

    /// The buffer after the last undone step was redone, if there is one.
    pub open spec fn redone(self) -> BufferView {
        if self.history.redo.len() == 0 {
            self
        } else {
            BufferView {
                data: self.history.redo.last().data,
                selection: self.history.redo.last().selection,
                dirty: true,
                history: HistoryView {
                    undo: self.history.undo.push(self.snapshot()),
                    redo: self.history.redo.drop_last(),
                    partial: self.history.partial,
                },
                ..self
            }
        }
    }

    /// What holds of the view of every well-formed buffer: the selection is
    /// well formed and lies inside the document, which is no longer than
    /// `MAX_DOCUMENT_LEN`.
    pub open spec fn inv(self) -> bool {
        &&& self.selection.wf()
        &&& self.selection.bounded(self.data.len() as int)
        &&& self.data.len() <= MAX_DOCUMENT_LEN
    }
}

/// An edit that is undone, redone and undone again leads back to the
/// document and the selection from before the edit.
pub proof fn lemma_undo_redo_undo(b: BufferView, pieces: Seq<Piece>, caret_offset: int, tail_offset: int)
    ensures
        b.applied(pieces, caret_offset, tail_offset).undone().redone().undone().data == b.data,
        b.applied(pieces, caret_offset, tail_offset).undone().redone().undone().selection
            == b.selection,
        b.applied(pieces, caret_offset, tail_offset).undone().redone() == (BufferView {
            history: HistoryView {
                undo: b.history.undo.push(b.snapshot()),
                redo: Seq::empty(),
                partial: None,
            },
            ..b.applied(pieces, caret_offset, tail_offset)
        }),
{
    let a = b.applied(pieces, caret_offset, tail_offset);
    let u = a.undone();
    assert(a.history.undo.last() == b.snapshot());
    assert(a.history.undo.drop_last() =~= b.history.undo);
    assert(u.history.redo =~= seq![a.snapshot()]);
    let r = u.redone();
    assert(u.history.redo.last() == a.snapshot());
    assert(u.history.redo.drop_last() =~= Seq::<Snapshot>::empty());
    assert(r.history.undo =~= b.history.undo.push(b.snapshot()));
    assert(r.history.undo.last() == b.snapshot());
}

/// One edit of a run of incomplete edits: the pieces of the delta, and
/// the offsets by which carets and tails are moved on.
pub struct Step {
    pub pieces: Seq<Piece>,
    pub caret_offset: int,
    pub tail_offset: int,
}

/// The buffer after the first `n` edits of a run of incomplete edits.
pub open spec fn after_run(b: BufferView, steps: Seq<Step>, n: int) -> BufferView
    decreases n,
{
    if n <= 0 {
        b
    } else {
        after_run(b, steps, n - 1).begun(
            steps[n - 1].pieces,
            steps[n - 1].caret_offset,
            steps[n - 1].tail_offset,
        )
    }
}

/// While a run of incomplete edits is under way, the history leads back
/// to the state at which the run began.
pub proof fn lemma_run_history(b: BufferView, steps: Seq<Step>, n: int)
    requires
        b.history.partial is None,
        0 < n,
    ensures
        after_run(b, steps, n).history == (HistoryView {
            undo: b.history.undo,
            redo: b.history.redo,
            partial: Some(b.snapshot()),
        }),
    decreases n,
{
    let before = after_run(b, steps, n - 1);
    if n > 1 {
        lemma_run_history(b, steps, n - 1);
    } else {
        assert(before == b);
    }
    assert(after_run(b, steps, n).history == before.run_history());
}

/// A run of incomplete edits, committed, leaves the same document and the
/// same history as one edit that is their composition, made in one step:
/// one step to undo, back to the state at which the run began.
pub proof fn lemma_commit_of_run(
    b: BufferView,
    steps: Seq<Step>,
    composition: Seq<Piece>,
    caret_offset: int,
    tail_offset: int,
)
    requires
        b.history.partial is None,
        steps.len() > 0,
        image(composition, b.data) == after_run(b, steps, steps.len() as int).data,
    ensures
        after_run(b, steps, steps.len() as int).committed().data == b.applied(
            composition,
            caret_offset,
            tail_offset,
        ).data,
        after_run(b, steps, steps.len() as int).committed().history == b.applied(
            composition,
            caret_offset,
            tail_offset,
        ).history,
        after_run(b, steps, steps.len() as int).committed().undone().data == b.data,
        after_run(b, steps, steps.len() as int).committed().undone().selection == b.selection,
{
    lemma_run_history(b, steps, steps.len() as int);
}

/// The views of the register contents.
pub open spec fn register_views(registers: Map<u32, Vec<Vec<u8>>>) -> Map<u32, Seq<Seq<u8>>> {
    Map::new(|k: u32| registers.contains_key(k), |k: u32| byte_views(registers[k]@))
}

/// A document with its selection, registers and history.
pub struct Buffer {
    path: Option<String>,
    data: Rope,
    selection: Selection,
    registers: HashMap<u32, Vec<Vec<u8>>>,
    dirty: bool,
    history: History,
}

impl View for Buffer {
    type V = BufferView;

    closed spec fn view(&self) -> BufferView {
        BufferView {
            path: match self.path {
                Some(p) => Some(p@),
                None => None,
            },
            data: self.data@,
            selection: self.selection@,
            registers: register_views(self.registers@),
            dirty: self.dirty,
            history: self.history.view_at(self.data@),
        }
    }
}

impl Default for Buffer {
    fn default() -> (r: Buffer)
        ensures
            r.wf(),
            r@.path is None,
            r@.data == Seq::<u8>::empty(),
            r@.selection == SelectionView::initial(),
            !r@.dirty,
            r@.history == (HistoryView { undo: Seq::empty(), redo: Seq::empty(), partial: None }),
            r@.registers == Map::<u32, Seq<Seq<u8>>>::empty(),
    {
        Buffer::from_data_and_path(Vec::new(), None)
    }
}

impl Buffer {
    /// The selection is well formed and lies inside the document, the
    /// document is no longer than `MAX_DOCUMENT_LEN`, and the history fits
    /// the document.
    pub closed spec fn wf(&self) -> bool {
        &&& self.selection.wf()
        &&& self.selection@.bounded(self.data@.len() as int)
        &&& self.data@.len() <= MAX_DOCUMENT_LEN
        &&& self.history.wf(self.data@.len() as int)
    }

    /// What a well-formed buffer shows in its view.
    pub proof fn lemma_wf(&self)
        requires
            self.wf(),
        ensures
            self@.inv(),
    {
    }

    /// A buffer for `data`, clean, with a single cursor on the first byte,
    /// no registers and no history.
    pub fn from_data_and_path(data: Vec<u8>, path: Option<String>) -> (r: Buffer)
        requires
            data@.len() <= MAX_DOCUMENT_LEN,
        ensures
            r.wf(),
            r@.path == match path {
                Some(p) => Some(p@),
                None => None,
            },
            r@.data == data@,
            r@.selection == SelectionView::initial(),
            !r@.dirty,
            r@.history == (HistoryView { undo: Seq::empty(), redo: Seq::empty(), partial: None }),
            r@.registers == Map::<u32, Seq<Seq<u8>>>::empty(),
    {
        let history = History::new();
        let rope = Rope::from_bytes(data);
        proof {
            assert(history.wf(rope@.len() as int));
            assert(history.view_at(rope@) == (HistoryView {
                undo: Seq::empty(),
                redo: Seq::empty(),
                partial: None,
            }));
        }
        let r = Buffer {
            data: rope,
            selection: Selection::new(),
            registers: HashMap::new(),
            dirty: false,
            path,
            history,
        };
        assert(r@.registers =~= Map::<u32, Seq<Seq<u8>>>::empty());
        r
    }

    /// The path, or the name of a buffer without one.
    pub fn name(&self) -> (r: String)
        ensures
            r@ == match self@.path {
                Some(p) => p,
                None => "*scratch*"@,
            },
    {
        match &self.path {
            Some(path) => path.clone(),
            None => "*scratch*".to_owned(),
        }
    }

    /// The document.
    pub fn data(&self) -> (r: &Rope)
        ensures
            r@ == self@.data,
    {
        &self.data
    }

    /// The selection.
    pub fn selection(&self) -> (r: &Selection)
        ensures
            r@ == self@.selection,
    {
        &self.selection
    }

    /// Whether the document was changed since it was last written.
    pub fn is_dirty(&self) -> (r: bool)
        ensures
            r == self@.dirty,
    {
        self.dirty
    }

    /// Says that the document was written.
    pub fn mark_clean(&mut self)
        ensures
            final(self)@ == (BufferView { dirty: false, ..old(self)@ }),
            old(self).wf() ==> final(self).wf(),
    {
        self.dirty = false;
    }

    /// The path that the document is written to, if it has one.
    pub fn path(&self) -> (r: &Option<String>)
        ensures
            match *r {
                Some(p) => self@.path == Some(p@),
                None => self@.path is None,
            },
    {
        &self.path
    }

    /// The contents of a register, if it was ever filled.
    pub fn register(&self, reg: char) -> (r: Option<&Vec<Vec<u8>>>)
        ensures
            match r {
                Some(contents) => self@.registers.contains_key(reg as u32) && byte_views(
                    contents@,
                ) == self@.registers[reg as u32],
                None => !self@.registers.contains_key(reg as u32),
            },
    {
        let key: u32 = reg as u32;
        self.registers.get(&key)
    }

    /// Whether a run of incomplete edits is under way.
    pub fn has_partial(&self) -> (r: bool)
        requires
            self.wf(),
        ensures
            r == (self@.history.partial is Some),
    {
        proof {
            self.history.lemma_view(self.data@);
        }
        self.history.is_partial()
    }

    /// Replaces each region by its images, puts these in order and merges
    /// what overlaps, as `Selection::map_selections` does. What is to be
    /// drawn again are the bytes of the regions before and of their images.
    pub fn map_selections(&mut self, images: Vec<Vec<SelRegion>>) -> (r: DirtyBytes)
        requires
            old(self).wf(),
            images@.len() == old(self)@.selection.regions.len(),
            images_present(views(images@)),
            images_agree(views(images@)),
            images_bounded(views(images@), old(self)@.data.len() as int),
        ensures
            final(self).wf(),
            r.wf(),
            old(self)@.selection.can_map(views(images@)),
            final(self)@ == (BufferView {
                selection: old(self)@.selection.mapped(views(images@)),
                ..old(self)@
            }),
            r matches DirtyBytes::ChangeInPlace(intervals) && ascending(intervals@) && forall|p: int|
                covered(intervals@, p) == (covered(
                    region_intervals(old(self)@.selection.regions),
                    p,
                ) || images_cover(views(images@), p)),
    {
        let invalidated = self.invalidated_by(&images);
        self.selection.map_selections(images);
        DirtyBytes::ChangeInPlace(coalesce(&invalidated))
    }

    /// Does what `map_selections` does where there is one image for each
    /// region, the images lie inside the document and can be merged;
    /// otherwise leaves the buffer as it is and gives `None`.
    pub fn try_map_selections(&mut self, images: Vec<Vec<SelRegion>>) -> (r: Option<DirtyBytes>)
        requires
            old(self).wf(),
        ensures
            final(self).wf(),
            r matches Some(dirty) ==> dirty.wf(),
            r is Some == (old(self)@.selection.can_map(views(images@)) && images_bounded(
                views(images@),
                old(self)@.data.len() as int,
            )),
            r is None ==> final(self)@ == old(self)@,
            r is Some ==> final(self)@ == (BufferView {
                selection: old(self)@.selection.mapped(views(images@)),
                ..old(self)@
            }),
            r matches Some(dirty) ==> dirty matches DirtyBytes::ChangeInPlace(intervals)
                && ascending(intervals@) && forall|p: int|
                covered(intervals@, p) == (covered(
                    region_intervals(old(self)@.selection.regions),
                    p,
                ) || images_cover(views(images@), p)),
    {
        if !self.images_inside(&images) {
            return None;
        }
        let invalidated = self.invalidated_by(&images);
        if self.selection.try_map_selections(images) {
            Some(DirtyBytes::ChangeInPlace(coalesce(&invalidated)))
        } else {
            None
        }
    }

    /// Whether every region of every image lies inside the document.
    fn images_inside(&self, images: &Vec<Vec<SelRegion>>) -> (r: bool)
        ensures
            r == images_bounded(views(images@), self.data@.len() as int),
    {
        let len = self.data.len();
        let mut i: usize = 0;
        while i < images.len()
            invariant
                i <= images.len(),
                len == self.data@.len(),
                forall|a: int| 0 <= a < i ==> all_bounded(#[trigger] views(images@)[a], len as int),
            decreases images.len() - i,
        {
            let image = &images[i];
            assert(views(images@)[i as int] == image@);
            let mut j: usize = 0;
            while j < image.len()
                invariant
                    j <= image.len(),
                    i < images.len(),
                    len == self.data@.len(),
                    views(images@)[i as int] == image@,
                    forall|b: int| 0 <= b < j ==> (#[trigger] image@[b]).bounded(len as int),
                decreases image.len() - j,
            {
                if image[j].caret > len || image[j].tail > len {
                    proof {
                        assert(!image@[j as int].bounded(len as int));
                        assert(!all_bounded(views(images@)[i as int], len as int));
                    }
                    return false;
                }
                j += 1;
            }
            assert(all_bounded(views(images@)[i as int], len as int));
            i += 1;
        }
        true
    }

    /// The intervals of the regions and of their images.
    fn invalidated_by(&self, images: &Vec<Vec<SelRegion>>) -> (r: Vec<ByteInterval>)
        requires
            self.wf(),
            images_bounded(views(images@), self.data@.len() as int),
        ensures
            forall|i: int| 0 <= i < r@.len() ==> (#[trigger] r@[i]).start < r@[i].end,
            forall|p: int|
                covered(r@, p) == (covered(region_intervals(self.selection@.regions), p)
                    || images_cover(views(images@), p)),
    {
        let regions = self.selection.iter();
        let ghost olds = region_intervals(regions@);
        let ghost ims = views(images@);
        let ghost len = self.data@.len() as int;
        let mut out: Vec<ByteInterval> = Vec::new();
        let mut i: usize = 0;
        while i < regions.len()
            invariant
                i <= regions.len(),
                regions@ == self.selection@.regions,
                self.selection@.bounded(len),
                len <= MAX_DOCUMENT_LEN,
                out@.len() == i,
                forall|k: int| 0 <= k < i ==> #[trigger] out@[k] == olds[k],
                olds == region_intervals(regions@),
            decreases regions.len() - i,
        {
            assert(regions@[i as int].bounded(len));
            out.push(ByteInterval::from_region(&regions[i]));
            i += 1;
        }
        assert(out@ =~= olds);
        let mut a: usize = 0;
        while a < images.len()
            invariant
                a <= images.len(),
                ims == views(images@),
                images_bounded(ims, len),
                len <= MAX_DOCUMENT_LEN,
                olds == region_intervals(self.selection@.regions),
                forall|k: int| 0 <= k < out@.len() ==> (#[trigger] out@[k]).start < out@[k].end,
                forall|p: int|
                    covered(out@, p) == (covered(olds, p) || images_cover(ims.take(a as int), p)),
            decreases images.len() - a,
        {
            let image = &images[a];
            assert(ims[a as int] == image@);
            assert(all_bounded(ims[a as int], len));
            let ghost start = out@;
            let mut b: usize = 0;
            while b < image.len()
                invariant
                    b <= image.len(),
                    all_bounded(image@, len),
                    len <= MAX_DOCUMENT_LEN,
                    out@.len() == start.len() + b,
                    forall|k: int| 0 <= k < start.len() ==> #[trigger] out@[k] == start[k],
                    forall|k: int|
                        start.len() <= k < out@.len() ==> #[trigger] out@[k]
                            == ByteInterval::of_region(image@[k - start.len()]),
                decreases image.len() - b,
            {
                assert(image@[b as int].bounded(len));
                out.push(ByteInterval::from_region(&image[b]));
                b += 1;
            }
            proof {
                let now = out@;
                let taken = ims.take(a as int);
                let more = ims.take(a as int + 1);
                assert(more[a as int] == image@);
                assert forall|k: int| 0 <= k < now.len() implies (#[trigger] now[k]).start
                    < now[k].end by {
                    if k < start.len() {
                        assert(start[k].start < start[k].end);
                    } else {
                        assert(image@[k - start.len()].bounded(len));
                    }
                }
                assert forall|p: int|
                    covered(now, p) == (covered(olds, p) || images_cover(more, p)) by {
                    if covered(now, p) {
                        let k = choose|k: int| 0 <= k < now.len() && (#[trigger] now[k]).holds(p);
                        if k < start.len() {
                            assert(start[k].holds(p));
                            assert(covered(start, p));
                            if images_cover(taken, p) {
                                let (i, j) = choose|i: int, j: int|
                                    0 <= i < taken.len() && 0 <= j < taken[i].len()
                                        && ByteInterval::of_region(#[trigger] taken[i][j]).holds(p);
                                assert(ByteInterval::of_region(more[i][j]).holds(p));
                            }
                        } else {
                            let j = k - start.len();
                            assert(now[k] == ByteInterval::of_region(image@[j]));
                            assert(ByteInterval::of_region(more[a as int][j]).holds(p));
                        }
                    }
                    if covered(olds, p) {
                        assert(covered(start, p));
                        let k = choose|k: int| 0 <= k < start.len() && (#[trigger] start[k]).holds(p);
                        assert(now[k].holds(p));
                    }
                    if images_cover(more, p) {
                        let (i, j) = choose|i: int, j: int|
                            0 <= i < more.len() && 0 <= j < more[i].len()
                                && ByteInterval::of_region(#[trigger] more[i][j]).holds(p);
                        if i < a {
                            assert(ByteInterval::of_region(taken[i][j]).holds(p));
                            assert(images_cover(taken, p));
                            assert(covered(start, p));
                            let k = choose|k: int|
                                0 <= k < start.len() && (#[trigger] start[k]).holds(p);
                            assert(now[k].holds(p));
                        } else {
                            assert(now[start.len() + j].holds(p));
                        }
                    }
                }
            }
            a += 1;
        }
        proof {
            assert(ims.take(a as int) =~= ims);
            assert(olds == region_intervals(self.selection@.regions));
            assert forall|p: int|
                covered(out@, p) == (covered(region_intervals(self.selection@.regions), p)
                    || images_cover(views(images@), p)) by {
                assert(covered(out@, p) == (covered(olds, p) || images_cover(
                    ims.take(a as int),
                    p,
                )));
            }
        }
        out
    }

    /// Applies an edit to document, selection and history, if the selection
    /// can follow it; says whether it did.
    fn install_edit(&mut self, delta: RopeDelta, is_final: bool, caret_offset: isize, tail_offset: isize) -> (done: bool)
        requires
            old(self).wf(),
            delta.fits(old(self)@.data.len() as int),
            is_final ==> old(self)@.history.partial is None,
        ensures
            final(self).wf(),
            done == old(self)@.can_follow(delta.pieces(), caret_offset as int, tail_offset as int),
            !done ==> final(self)@ == old(self)@,
            done && is_final ==> final(self)@ == old(self)@.applied(
                delta.pieces(),
                caret_offset as int,
                tail_offset as int,
            ),
            done && !is_final ==> final(self)@ == old(self)@.begun(
                delta.pieces(),
                caret_offset as int,
                tail_offset as int,
            ),
    {
        let old_len = self.data.len();
        let mut following = self.selection.clone();
        if !following.try_apply_delta_offset_carets(&delta, caret_offset, tail_offset, old_len) {
            return false;
        }
        proof {
            self.history.lemma_view(self.data@);
            lemma_image_len(delta.pieces(), self.data@, delta.pieces().len() as int);
        }
        let next_data = match self.data.apply_delta(&delta) {
            Ok(rope) => rope,
            Err(_) => vstd::pervasive::unreached(),
        };
        if is_final {
            self.history.perform_final(&self.data, delta, self.selection.clone());
        } else {
            self.history.perform_partial(&self.data, delta, &self.selection);
        }
        proof {
            self.history.lemma_view(next_data@);
        }
        self.data = next_data;
        self.dirty = true;
        self.selection = following;
        true
    }

    /// Applies `delta` as one step to undo: the document becomes what the
    /// edit makes of it, the selection follows, and the state before is put
    /// on the undo stack.
    pub fn apply_delta(&mut self, delta: RopeDelta) -> (r: DirtyBytes)
        requires
            old(self).wf(),
            delta.fits(old(self)@.data.len() as int),
            old(self)@.history.partial is None,
            old(self)@.can_follow(delta.pieces(), 0, 0),
        ensures
            final(self).wf(),
            final(self)@ == old(self)@.applied(delta.pieces(), 0, 0),
            r == DirtyBytes::ChangeLength,
    {
        self.install_edit(delta, true, 0, 0);
        DirtyBytes::ChangeLength
    }

    /// As `apply_delta`; the carets and tails are moved on by the offsets.
    pub fn apply_delta_offset_carets(
        &mut self,
        delta: RopeDelta,
        caret_offset: isize,
        tail_offset: isize,
    ) -> (r: DirtyBytes)
        requires
            old(self).wf(),
            delta.fits(old(self)@.data.len() as int),
            old(self)@.history.partial is None,
            old(self)@.can_follow(delta.pieces(), caret_offset as int, tail_offset as int),
        ensures
            final(self).wf(),
            final(self)@ == old(self)@.applied(
                delta.pieces(),
                caret_offset as int,
                tail_offset as int,
            ),
            r == DirtyBytes::ChangeLength,
    {
        self.install_edit(delta, true, caret_offset, tail_offset);
        DirtyBytes::ChangeLength
    }

    /// Applies `delta` as part of a run of incomplete edits: the document
    /// becomes what the edit makes of it, the selection follows, and the
    /// history leads back to the state at which the run began.
    pub fn apply_incomplete_delta(&mut self, delta: RopeDelta) -> (r: DirtyBytes)
        requires
            old(self).wf(),
            delta.fits(old(self)@.data.len() as int),
            old(self)@.can_follow(delta.pieces(), 0, 0),
        ensures
            final(self).wf(),
            final(self)@ == old(self)@.begun(delta.pieces(), 0, 0),
            r == DirtyBytes::ChangeLength,
    {
        self.install_edit(delta, false, 0, 0);
        DirtyBytes::ChangeLength
    }

    /// As `apply_incomplete_delta`; the carets and tails are moved on by
    /// the offsets.
    pub fn apply_incomplete_delta_offset_carets(
        &mut self,
        delta: RopeDelta,
        caret_offset: isize,
        tail_offset: isize,
    ) -> (r: DirtyBytes)
        requires
            old(self).wf(),
            delta.fits(old(self)@.data.len() as int),
            old(self)@.can_follow(delta.pieces(), caret_offset as int, tail_offset as int),
        ensures
            final(self).wf(),
            final(self)@ == old(self)@.begun(
                delta.pieces(),
                caret_offset as int,
                tail_offset as int,
            ),
            r == DirtyBytes::ChangeLength,
    {
        self.install_edit(delta, false, caret_offset, tail_offset);
        DirtyBytes::ChangeLength
    }

    /// Applies `delta` as `apply_delta_offset_carets` does, or as
    /// `apply_incomplete_delta_offset_carets` if `incomplete` is set, where
    /// the delta fits the document and the selection can follow it;
    /// otherwise leaves the buffer as it is and gives `None`.
    pub fn try_apply(
        &mut self,
        delta: RopeDelta,
        incomplete: bool,
        caret_offset: isize,
        tail_offset: isize,
    ) -> (r: Option<DirtyBytes>)
        requires
            old(self).wf(),
            !incomplete ==> old(self)@.history.partial is None,
        ensures
            final(self).wf(),
            r is Some == (delta.fits(old(self)@.data.len() as int) && old(self)@.can_follow(
                delta.pieces(),
                caret_offset as int,
                tail_offset as int,
            )),
            r is None ==> final(self)@ == old(self)@,
            r is Some ==> r == Some(DirtyBytes::ChangeLength),
            r is Some && !incomplete ==> final(self)@ == old(self)@.applied(
                delta.pieces(),
                caret_offset as int,
                tail_offset as int,
            ),
            r is Some && incomplete ==> final(self)@ == old(self)@.begun(
                delta.pieces(),
                caret_offset as int,
                tail_offset as int,
            ),
    {
        if !delta.applies_to(self.data.len()) {
            return None;
        }
        if self.install_edit(delta, !incomplete, caret_offset, tail_offset) {
            Some(DirtyBytes::ChangeLength)
        } else {
            None
        }
    }

    /// Applies `delta` as one step to undo or, if `incomplete` is set, as
    /// part of a run of incomplete edits, and leaves the selection where it
    /// is, where the delta fits the document and the selection lies inside
    /// the document that the delta makes; otherwise leaves the buffer as
    /// it is and gives `None`.
    pub fn try_apply_in_place(&mut self, delta: RopeDelta, incomplete: bool) -> (r: Option<
        DirtyBytes,
    >)
        requires
            old(self).wf(),
            !incomplete ==> old(self)@.history.partial is None,
        ensures
            final(self).wf(),
            r is Some == (delta.fits(old(self)@.data.len() as int) && old(self)@.selection.bounded(
                delta.new_len(),
            )),
            r is None ==> final(self)@ == old(self)@,
            r is Some ==> r == Some(DirtyBytes::ChangeLength),
            r is Some && !incomplete ==> final(self)@ == old(self)@.applied_in_place(
                delta.pieces(),
            ),
            r is Some && incomplete ==> final(self)@ == old(self)@.begun_in_place(delta.pieces()),
    {
        if !delta.applies_to(self.data.len()) {
            return None;
        }
        let new_len = delta.new_document_len();
        let regions = self.selection.iter();
        let mut i: usize = 0;
        while i < regions.len()
            invariant
                i <= regions.len(),
                regions@ == self.selection@.regions,
                new_len == delta.new_len(),
                *self == *old(self),
                self.wf(),
                delta.fits(self@.data.len() as int),
                forall|k: int| 0 <= k < i ==> (#[trigger] regions@[k]).bounded(new_len as int),
            decreases regions.len() - i,
        {
            if regions[i].caret > new_len || regions[i].tail > new_len {
                assert(!regions@[i as int].bounded(new_len as int));
                return None;
            }
            i += 1;
        }
        proof {
            self.history.lemma_view(self.data@);
            lemma_image_len(delta.pieces(), self.data@, delta.pieces().len() as int);
        }
        let next_data = match self.data.apply_delta(&delta) {
            Ok(rope) => rope,
            Err(_) => vstd::pervasive::unreached(),
        };
        if incomplete {
            self.history.perform_partial(&self.data, delta, &self.selection);
        } else {
            self.history.perform_final(&self.data, delta, self.selection.clone());
        }
        proof {
            self.history.lemma_view(next_data@);
        }
        self.data = next_data;
        self.dirty = true;
        Some(DirtyBytes::ChangeLength)
    }

    /// Ends the run of incomplete edits, if one is under way: the run
    /// becomes one step to undo.
    pub fn commit_delta(&mut self)
        requires
            old(self).wf(),
        ensures
            final(self).wf(),
            final(self)@ == old(self)@.committed(),
            final(self)@.history.partial is None,
    {
        proof {
            self.history.lemma_view(self.data@);
        }
        self.history.commit_partial();
        proof {
            self.history.lemma_view(self.data@);
        }
    }

    /// Undoes the last step: document and selection are as before it, and
    /// the step can be redone. `None`, and nothing changes, if there is
    /// nothing to undo. A run of incomplete edits has to be ended before a
    /// step is undone.
    pub fn perform_undo(&mut self) -> (r: Option<DirtyBytes>)
        requires
            old(self).wf(),
            old(self)@.history.partial is None || old(self)@.history.undo.len() == 0,
        ensures
            final(self).wf(),
            final(self)@ == old(self)@.undone(),
            r is None == (old(self)@.history.undo.len() == 0),
            r is Some ==> r == Some(DirtyBytes::ChangeLength),
    {
        proof {
            self.history.lemma_view(self.data@);
        }
        if self.history.is_partial() {
            return None;
        }
        match self.history.undo(&self.data, self.selection.clone()) {
            Some((undo_delta, old_selection)) => {
                proof {
                    lemma_image_len(undo_delta.pieces(), self.data@, undo_delta.pieces().len() as int);
                }
                self.selection = old_selection;
                let next = match self.data.apply_delta(&undo_delta) {
                    Ok(rope) => rope,
                    Err(_) => vstd::pervasive::unreached(),
                };
                self.data = next;
                self.dirty = true;
                Some(DirtyBytes::ChangeLength)
            },
            None => None,
        }
    }

    /// Redoes the last undone step. `None` if there is nothing to redo.
    pub fn perform_redo(&mut self) -> (r: Option<DirtyBytes>)
        requires
            old(self).wf(),
            old(self)@.history.partial is None || old(self)@.history.redo.len() == 0,
        ensures
            final(self).wf(),
            final(self)@ == old(self)@.redone(),
            r is None == (old(self)@.history.redo.len() == 0),
            r is Some ==> r == Some(DirtyBytes::ChangeLength),
    {
        proof {
            self.history.lemma_view(self.data@);
        }
        if self.history.is_partial() {
            return None;
        }
        match self.history.redo(&self.data, self.selection.clone()) {
            Some((redo_delta, old_selection)) => {
                proof {
                    lemma_image_len(redo_delta.pieces(), self.data@, redo_delta.pieces().len() as int);
                }
                self.selection = old_selection;
                let next = match self.data.apply_delta(&redo_delta) {
                    Ok(rope) => rope,
                    Err(_) => vstd::pervasive::unreached(),
                };
                self.data = next;
                self.dirty = true;
                Some(DirtyBytes::ChangeLength)
            },
            None => None,
        }
    }

    /// The intervals of all regions, in order.
    fn all_intervals(&self) -> (r: Vec<ByteInterval>)
        requires
            self.wf(),
        ensures
            r@ == region_intervals(self.selection@.regions),
            ordered(r@),
    {
        let regions = self.selection.iter();
        let ghost len = self.data@.len() as int;
        let mut out: Vec<ByteInterval> = Vec::new();
        let mut i: usize = 0;
        while i < regions.len()
            invariant
                i <= regions.len(),
                regions@ == self.selection@.regions,
                self.selection@.bounded(len),
                len <= MAX_DOCUMENT_LEN,
                out@.len() == i,
                forall|k: int|
                    0 <= k < i ==> #[trigger] out@[k] == region_intervals(regions@)[k],
            decreases regions.len() - i,
        {
            assert(regions@[i as int].bounded(len));
            out.push(ByteInterval::from_region(&regions[i]));
            i += 1;
        }
        assert(out@ =~= region_intervals(regions@));
        proof {
            assert forall|a: int, b: int| 0 <= a < b < out@.len() implies (#[trigger] out@[a]).end
                <= (#[trigger] out@[b]).start by {
                assert(regions@[a].spec_max() < regions@[b].spec_min());
            }
        }
        out
    }

    /// Drops the region at `index`, counted round the selection, unless it
    /// is the only one. What is to be drawn again are the regions as they
    /// were.
    pub fn remove_selection(&mut self, index: usize) -> (r: DirtyBytes)
        requires
            old(self).wf(),
        ensures
            final(self).wf(),
            final(self)@.selection.bounded(old(self)@.data.len() as int),
            old(self)@.selection.regions.len() == 1 ==> final(self)@ == old(self)@,
            old(self)@.selection.regions.len() > 1 ==> final(self)@ == (BufferView {
                selection: final(self)@.selection,
                ..old(self)@
            }) && final(self)@.selection.main == int_min(
                old(self)@.selection.regions.len() - 2,
                old(self)@.selection.main,
            ) && final(self)@.selection.regions == crate::selection::with_main(
                old(self)@.selection.regions.remove(
                    index as int % (old(self)@.selection.regions.len() as int),
                ),
                final(self)@.selection.main,
            ),
            r matches DirtyBytes::ChangeInPlace(intervals) && intervals@ == region_intervals(
                old(self)@.selection.regions,
            ),
            r.wf(),
    {
        let dirty = DirtyBytes::ChangeInPlace(self.all_intervals());
        let ghost before = self.selection@;
        let ghost len = self.data@.len() as int;
        let at = index % self.selection.len();
        self.selection.remove(at);
        proof {
            let after = self.selection@;
            if before.regions.len() > 1 {
                assert forall|i: int| 0 <= i < after.regions.len() implies (
                #[trigger] after.regions[i]).bounded(len) by {
                    let bi = if i < at { i } else { i + 1 };
                    assert(before.regions[bi].bounded(len));
                    assert(before.regions.remove(at as int)[i] == before.regions[bi]);
                }
            }
        }
        dirty
    }

    /// Keeps only the region at `index`, counted round the selection. What
    /// is to be drawn again are the regions as they were.
    pub fn retain_selection(&mut self, index: usize) -> (r: DirtyBytes)
        requires
            old(self).wf(),
        ensures
            final(self).wf(),
            final(self)@ == (BufferView {
                selection: SelectionView {
                    regions: seq![
                        old(self)@.selection.regions[index as int % (
                        old(self)@.selection.regions.len() as int)].flagged(true),
                    ],
                    main: 0,
                },
                ..old(self)@
            }),
            r matches DirtyBytes::ChangeInPlace(intervals) && intervals@ == region_intervals(
                old(self)@.selection.regions,
            ),
            r.wf(),
    {
        let dirty = DirtyBytes::ChangeInPlace(self.all_intervals());
        let ghost before = self.selection@;
        let ghost len = self.data@.len() as int;
        let at = index % self.selection.len();
        assert(before.regions[at as int].bounded(len));
        self.selection.retain(at);
        dirty
    }

    /// The interval of the main region.
    fn main_interval(&self) -> (r: ByteInterval)
        requires
            self.wf(),
        ensures
            r == ByteInterval::of_region(self.selection@.regions[self.selection@.main]),
            r.start < r.end,
    {
        let main = self.selection.main();
        assert(self.selection@.regions[self.selection@.main].bounded(self.data@.len() as int));
        ByteInterval::from_region(&main)
    }

    /// What is to be drawn again when the main region changes: the old and
    /// the new main region.
    fn main_switched(&self, old_main: ByteInterval) -> (r: DirtyBytes)
        requires
            self.wf(),
            old_main.start < old_main.end,
        ensures
            r matches DirtyBytes::ChangeInPlace(intervals) && ascending(intervals@) && forall|p: int|
                covered(intervals@, p) == (old_main.holds(p) || ByteInterval::of_region(
                    self@.selection.regions[self@.selection.main],
                ).holds(p)),
    {
        let new_main = self.main_interval();
        let mut both: Vec<ByteInterval> = Vec::new();
        both.push(old_main);
        both.push(new_main);
        let joined = coalesce(&both);
        proof {
            assert forall|p: int| covered(both@, p) == (old_main.holds(p) || new_main.holds(p)) by {
                if old_main.holds(p) {
                    assert(both@[0].holds(p));
                }
                if new_main.holds(p) {
                    assert(both@[1].holds(p));
                }
            }
        }
        DirtyBytes::ChangeInPlace(joined)
    }

    /// Makes the region `count` places on the main one, counted round the
    /// selection. What is to be drawn again are the old and the new main
    /// region.
    pub fn select_next(&mut self, count: usize) -> (r: DirtyBytes)
        requires
            old(self).wf(),
        ensures
            final(self).wf(),
            r.wf(),
            final(self)@ == (BufferView { selection: final(self)@.selection, ..old(self)@ }),
            final(self)@.selection.main == (old(self)@.selection.main + count) % (
            old(self)@.selection.regions.len() as int),
            final(self)@.selection.regions == crate::selection::with_main(
                old(self)@.selection.regions,
                final(self)@.selection.main,
            ),
            r matches DirtyBytes::ChangeInPlace(intervals) && ascending(intervals@) && forall|p: int|
                covered(intervals@, p) == (ByteInterval::of_region(
                    old(self)@.selection.regions[old(self)@.selection.main],
                ).holds(p) || ByteInterval::of_region(
                    final(self)@.selection.regions[final(self)@.selection.main],
                ).holds(p)),
    {
        let old_main = self.main_interval();
        let ghost before = self.selection@;
        let ghost len = self.data@.len() as int;
        self.selection.select_next(count);
        proof {
            let after = self.selection@;
            assert forall|i: int| 0 <= i < after.regions.len() implies (
            #[trigger] after.regions[i]).bounded(len) by {
                assert(before.regions[i].bounded(len));
            }
        }
        self.main_switched(old_main)
    }

    /// Makes the region `count` places back the main one, counted round
    /// the selection. What is to be drawn again are the old and the new
    /// main region.
    pub fn select_prev(&mut self, count: usize) -> (r: DirtyBytes)
        requires
            old(self).wf(),
        ensures
            final(self).wf(),
            r.wf(),
            final(self)@ == (BufferView { selection: final(self)@.selection, ..old(self)@ }),
            final(self)@.selection.main == (old(self)@.selection.main + old(self)@.selection.regions.len() - (count as int) % (
            old(self)@.selection.regions.len() as int)) % (
            old(self)@.selection.regions.len() as int),
            final(self)@.selection.regions == crate::selection::with_main(
                old(self)@.selection.regions,
                final(self)@.selection.main,
            ),
            r matches DirtyBytes::ChangeInPlace(intervals) && ascending(intervals@) && forall|p: int|
                covered(intervals@, p) == (ByteInterval::of_region(
                    old(self)@.selection.regions[old(self)@.selection.main],
                ).holds(p) || ByteInterval::of_region(
                    final(self)@.selection.regions[final(self)@.selection.main],
                ).holds(p)),
    {
        let old_main = self.main_interval();
        let ghost before = self.selection@;
        let ghost len = self.data@.len() as int;
        self.selection.select_prev(count);
        proof {
            let after = self.selection@;
            assert forall|i: int| 0 <= i < after.regions.len() implies (
            #[trigger] after.regions[i]).bounded(len) by {
                assert(before.regions[i].bounded(len));
            }
        }
        self.main_switched(old_main)
    }

    /// Selects the whole document. What is to be drawn again is all of it.
    pub fn select_all(&mut self) -> (r: DirtyBytes)
        requires
            old(self).wf(),
        ensures
            final(self).wf(),
            r.wf(),
            final(self)@ == (BufferView {
                selection: SelectionView {
                    regions: seq![
                        SelRegion {
                            caret: if old(self)@.data.len() == 0 {
                                0
                            } else {
                                (old(self)@.data.len() - 1) as usize
                            },
                            tail: 0,
                            main: true,
                        },
                    ],
                    main: 0,
                },
                ..old(self)@
            }),
            r matches DirtyBytes::ChangeInPlace(intervals) && intervals@ == seq![
                ByteInterval { start: 0, end: old(self)@.data.len() as usize },
            ],
    {
        let len = self.data.len();
        self.selection.select_all(len);
        let mut all: Vec<ByteInterval> = Vec::new();
        all.push(ByteInterval::new(0, len));
        assert(all@ =~= seq![ByteInterval { start: 0, end: len }]);
        DirtyBytes::ChangeInPlace(all)
    }

    /// Copies the bytes of each region into the register `reg`, one entry
    /// for each region.
    pub fn yank_selections(&mut self, reg: char)
        requires
            old(self).wf(),
        ensures
            final(self).wf(),
            final(self)@ == (BufferView {
                registers: old(self)@.registers.insert(
                    reg as u32,
                    yanked(old(self)@.data, old(self)@.selection.regions),
                ),
                ..old(self)@
            }),
    {
        let len = self.data.len();
        let regions = self.selection.iter();
        let ghost want = yanked(self.data@, regions@);
        let mut selections: Vec<Vec<u8>> = Vec::new();
        let mut i: usize = 0;
        while i < regions.len()
            invariant
                i <= regions.len(),
                len == self.data@.len(),
                regions@ == self.selection@.regions,
                self.selection@.bounded(len as int),
                selections@.len() == i,
                forall|k: int| 0 <= k < i ==> (#[trigger] selections@[k])@ == want[k],
                want == yanked(self.data@, regions@),
            decreases regions.len() - i,
        {
            let region = regions[i];
            assert(region.bounded(len as int));
            let end: usize = if region.max() < len {
                region.max() + 1
            } else {
                len
            };
            selections.push(self.data.slice_to_cow(region.min(), end));
            i += 1;
        }
        proof {
            assert(byte_views(selections@) =~= want);
        }
        let ghost before = self.registers@;
        let key: u32 = reg as u32;
        self.registers.insert(key, selections);
        proof {
            assert(register_views(self.registers@) =~= register_views(before).insert(key, want));
            self.history.lemma_view(self.data@);
        }
    }

    /// Which ends of the last region stand past the last byte, if any.
    pub fn overflow_sel_style(&self) -> (r: Option<OverflowSelectionStyle>)
        requires
            self.wf(),
        ensures
            r == ({
                let last = self@.selection.regions.last();
                let len = self@.data.len();
                if last.caret == len && last.tail == len {
                    Some(OverflowSelectionStyle::CursorTail)
                } else if last.caret == len {
                    Some(OverflowSelectionStyle::Cursor)
                } else if last.tail == len {
                    Some(OverflowSelectionStyle::Tail)
                } else {
                    None
                }
            }),
    {
        let regions = self.selection.iter();
        let last_sel = regions[regions.len() - 1];
        let len = self.data.len();
        if last_sel.caret == len && last_sel.tail == len {
            Some(OverflowSelectionStyle::CursorTail)
        } else if last_sel.caret == len {
            Some(OverflowSelectionStyle::Cursor)
        } else if last_sel.tail == len {
            Some(OverflowSelectionStyle::Tail)
        } else {
            None
        }
    }

    /// Gives the buffer the path `path`, unless it has one.
    pub fn update_path_if_missing(&mut self, path: String)
        ensures
            final(self)@ == (BufferView {
                path: match old(self)@.path {
                    Some(p) => Some(p),
                    None => Some(path@),
                },
                ..old(self)@
            }),
            old(self).wf() ==> final(self).wf(),
    {
        if self.path.is_none() {
            self.path = Some(path);
        }
    }
}


/// What a collection of buffers holds: the buffers in order and the index
/// of the current one.
pub struct BuffersView {
    pub list: Seq<BufferView>,
    pub current: int,
}

/// The views of a list of buffers.
pub open spec fn buffer_views(list: Seq<Buffer>) -> Seq<BufferView> {
    Seq::new(list.len(), |i: int| list[i]@)
}

/// A buffer that is replaced by one with the same view leaves the views of
/// the list as they are.
pub proof fn lemma_same_views(list: Seq<Buffer>, index: int)
    requires
        0 <= index < list.len(),
    ensures
        forall|b: Buffer|
            b@ == list[index]@ ==> #[trigger] buffer_views(list.update(index, b)) == buffer_views(
                list,
            ),
        forall|b: Buffer| #[trigger]
            buffer_views(list.update(index, b)) == buffer_views(list).update(index, b@),
{
    assert forall|b: Buffer| b@ == list[index]@ implies #[trigger] buffer_views(
        list.update(index, b),
    ) == buffer_views(list) by {
        assert(buffer_views(list.update(index, b)) =~= buffer_views(list));
    }
    assert forall|b: Buffer| #[trigger]
        buffer_views(list.update(index, b)) == buffer_views(list).update(index, b@) by {
        assert(buffer_views(list.update(index, b)) =~= buffer_views(list).update(index, b@));
    }
}

/// The buffers that are open, one of which is the current one. There is
/// always at least one.
pub struct Buffers {
    list: Vec<Buffer>,
    cur_buf_index: usize,
}

impl View for Buffers {
    type V = BuffersView;

    closed spec fn view(&self) -> BuffersView {
        BuffersView { list: buffer_views(self.list@), current: self.cur_buf_index as int }
    }
}

impl Default for Buffers {
    fn default() -> (r: Buffers)
        ensures
            r.wf(),
            r@.list.len() == 1,
            r@.current == 0,
    {
        Buffers::new()
    }
}

/// Whether `paths[i]` is `target`, for the first `i` of this kind below `n`.
pub open spec fn first_with_path(paths: Seq<Option<String>>, target: Seq<char>, n: int) -> Option<
    int,
>
    decreases n,
{
    if n <= 0 {
        None
    } else {
        match first_with_path(paths, target, n - 1) {
            Some(i) => Some(i),
            None => if paths[n - 1] matches Some(p) && p@ == target {
                Some(n - 1)
            } else {
                None
            },
        }
    }
}

impl Buffers {
    /// There is a buffer, the current index points at one, and every
    /// buffer is well formed.
    pub closed spec fn wf(&self) -> bool {
        &&& self.list@.len() > 0
        &&& self.cur_buf_index < self.list@.len()
        &&& forall|i: int| 0 <= i < self.list@.len() ==> (#[trigger] self.list@[i]).wf()
    }

    /// What a well-formed collection shows in its view.
    pub proof fn lemma_wf(&self)
        requires
            self.wf(),
        ensures
            0 <= self@.current < self@.list.len(),
            forall|i: int| 0 <= i < self@.list.len() ==> (#[trigger] self@.list[i]).inv(),
    {
        assert forall|i: int| 0 <= i < self@.list.len() implies (#[trigger] self@.list[i]).inv() by {
            self.list@[i].lemma_wf();
        }
    }

    /// One empty buffer without a path.
    pub fn new() -> (r: Buffers)
        ensures
            r.wf(),
            r@.list.len() == 1,
            r@.current == 0,
    {
        Buffers::with_buffer(Buffer::default())
    }

    /// The collection that holds `buf` and nothing else.
    pub fn with_buffer(buf: Buffer) -> (r: Buffers)
        requires
            buf.wf(),
        ensures
            r.wf(),
            r@ == (BuffersView { list: seq![buf@], current: 0 }),
    {
        let mut list: Vec<Buffer> = Vec::new();
        list.push(buf);
        let r = Buffers { cur_buf_index: 0, list };
        assert(r@.list =~= seq![buf@]);
        r
    }

    /// The current buffer.
    pub fn current(&self) -> (r: &Buffer)
        requires
            self.wf(),
        ensures
            r.wf(),
            r@ == self@.list[self@.current],
    {
        &self.list[self.cur_buf_index]
    }

    /// The current buffer, to be changed. The collection stays well formed
    /// if the buffer does.
    pub fn current_mut(&mut self) -> (r: &mut Buffer)
        requires
            old(self).wf(),
        ensures
            r.wf(),
            r@ == old(self)@.list[old(self)@.current],
            0 <= old(self)@.current < old(self)@.list.len(),
            final(self)@.current == old(self)@.current,
            final(self)@.list == old(self)@.list.update(old(self)@.current, final(r)@),
            final(r)@ == r@ ==> final(self)@ == old(self)@,
            final(r).wf() ==> final(self).wf(),
    {
        let index = self.cur_buf_index;
        proof {
            lemma_same_views(self.list@, index as int);
        }
        &mut self.list[index]
    }

    /// The number of buffers.
    pub fn len(&self) -> (r: usize)
        ensures
            r == self@.list.len(),
    {
        self.list.len()
    }

    /// The buffers, in order.
    pub fn iter(&self) -> (r: &Vec<Buffer>)
        requires
            self.wf(),
        ensures
            r@.len() == self@.list.len(),
            forall|i: int| 0 <= i < r@.len() ==> (#[trigger] r@[i])@ == self@.list[i] && r@[i].wf(),
    {
        &self.list
    }

    /// The buffer at `index`, to be changed. The collection stays well
    /// formed if the buffer does.
    pub fn get_mut(&mut self, index: usize) -> (r: &mut Buffer)
        requires
            old(self).wf(),
            index < old(self)@.list.len(),
        ensures
            r.wf(),
            r@ == old(self)@.list[index as int],
            final(self)@.current == old(self)@.current,
            final(self)@.list == old(self)@.list.update(index as int, final(r)@),
            final(r)@ == r@ ==> final(self)@ == old(self)@,
            final(r).wf() ==> final(self).wf(),
    {
        proof {
            lemma_same_views(self.list@, index as int);
        }
        &mut self.list[index]
    }

    /// Makes the first buffer whose canonical path is `target` the current
    /// one and says whether there is one. `canonical_paths` holds the
    /// canonical path of each buffer that has a path.
    pub fn switch_buffer(&mut self, canonical_paths: &Vec<Option<String>>, target: &String) -> (r:
        bool)
        requires
            old(self).wf(),
            canonical_paths@.len() == old(self)@.list.len(),
        ensures
            final(self).wf(),
            final(self)@.list == old(self)@.list,
            r == (first_with_path(canonical_paths@, target@, canonical_paths@.len() as int)
                is Some),
            final(self)@.current == match first_with_path(
                canonical_paths@,
                target@,
                canonical_paths@.len() as int,
            ) {
                Some(i) => i,
                None => old(self)@.current,
            },
    {
        let mut i: usize = 0;
        while i < canonical_paths.len()
            invariant
                i <= canonical_paths.len(),
                canonical_paths@.len() == self@.list.len(),
                self.wf(),
                *self == *old(self),
                first_with_path(canonical_paths@, target@, i as int) is None,
            decreases canonical_paths.len() - i,
        {
            let found = match &canonical_paths[i] {
                Some(path) => String::eq(path, target),
                None => false,
            };
            if found {
                self.cur_buf_index = i;
                proof {
                    lemma_first_with_path(
                        canonical_paths@,
                        target@,
                        i as int + 1,
                        canonical_paths@.len() as int,
                    );
                }
                return true;
            }
            i += 1;
        }
        false
    }

    /// Adds `buf` behind the others and makes it the current buffer.
    pub fn open(&mut self, buf: Buffer)
        requires
            old(self).wf(),
            buf.wf(),
        ensures
            final(self).wf(),
            final(self)@ == (BuffersView {
                list: old(self)@.list.push(buf@),
                current: old(self)@.list.len() as int,
            }),
    {
        self.list.push(buf);
        self.cur_buf_index = self.list.len() - 1;
        assert(self@.list =~= old(self)@.list.push(buf@));
    }

    /// Drops the current buffer. The buffer before it becomes the current
    /// one, or the first if there is none before it; if no buffer is left,
    /// an empty one without a path is put in.
    pub fn delete_current(&mut self)
        requires
            old(self).wf(),
        ensures
            final(self).wf(),
            final(self)@.current == if old(self)@.current == 0 {
                0
            } else {
                old(self)@.current - 1
            },
            old(self)@.list.len() > 1 ==> final(self)@.list == old(self)@.list.remove(
                old(self)@.current,
            ),
            old(self)@.list.len() == 1 ==> final(self)@.list == seq![BufferView::fresh()],
    {
        let ghost before = self.list@;
        self.list.remove(self.cur_buf_index);
        self.cur_buf_index = self.cur_buf_index.saturating_sub(1);
        if self.list.len() == 0 {
            self.list.push(Buffer::default());
            assert(self@.list =~= seq![BufferView::fresh()]);
        } else {
            proof {
                let at = old(self).cur_buf_index as int;
                assert forall|i: int| 0 <= i < self.list@.len() implies (#[trigger] self.list@[i]).wf() by {
                    let bi = if i < at { i } else { i + 1 };
                    assert(self.list@[i] == before[bi]);
                }
                assert(self@.list =~= old(self)@.list.remove(at));
            }
        }
    }
}

/// Once a buffer with the path is found, it stays the first.
pub proof fn lemma_first_with_path(paths: Seq<Option<String>>, target: Seq<char>, k: int, n: int)
    requires
        0 <= k <= n,
        first_with_path(paths, target, k) is Some,
    ensures
        first_with_path(paths, target, n) == first_with_path(paths, target, k),
    decreases n - k,
{
    if k < n {
        lemma_first_with_path(paths, target, k, n - 1);
    }
}

} // verus!
