//! The edits of the editor, each as a delta made from a document and a
//! selection. None of them changes anything: the delta is applied elsewhere.

use crate::byte_rope::Rope;
use crate::delta::{
    built_len, delta_of_edits, edit_views, edited_view, edits_in_order, edits_pieces, lemma_built,
    lemma_edited, lemma_replaced, view_len, DeltaError, Edit, RopeDelta, RopeEdit,
    MAX_DOCUMENT_LEN,
};
use crate::selection::{int_max, int_min, sorted_disjoint, SelRegion, Selection};
use vstd::prelude::*;

verus! {

/// Deleting a region: its bytes go, as far as the document reaches.
pub open spec fn deletion_edit(r: SelRegion, base_len: int) -> Edit {
    Edit { start: r.spec_min(), end: int_min(r.spec_max() + 1, base_len), bytes: Seq::empty() }
}

/// Deleting backwards: the byte before the caret goes, if there is one.
pub open spec fn backspace_edit(r: SelRegion) -> Edit {
    Edit { start: int_max(r.caret - 1, 0), end: r.caret as int, bytes: Seq::empty() }
}

/// Deleting forwards: the byte at the caret goes, if there is one.
pub open spec fn delete_cursor_edit(r: SelRegion, base_len: int) -> Edit {
    Edit { start: r.caret as int, end: int_min(r.caret + 1, base_len), bytes: Seq::empty() }
}

/// Inserting: `text` comes in front of the byte at the caret.
pub open spec fn insert_edit(r: SelRegion, text: Seq<u8>) -> Edit {
    Edit { start: r.caret as int, end: r.caret as int, bytes: text }
}

/// Changing: `text` takes the place of the byte at the caret.
pub open spec fn change_edit(r: SelRegion, base_len: int, text: Seq<u8>) -> Edit {
    Edit { start: r.caret as int, end: int_min(r.caret + 1, base_len), bytes: text }
}

/// Replacing: every byte of the region, the slot past the last byte of the
/// document included where the region holds it, becomes `ch`.
pub open spec fn replace_edit(r: SelRegion, base_len: int, ch: u8) -> Edit {
    Edit {
        start: r.spec_min(),
        end: int_min(r.spec_max() + 1, base_len),
        bytes: Seq::new(r.spec_len() as nat, |i: int| ch),
    }
}

/// `bytes`, `count` times in a row.
pub open spec fn repeated(bytes: Seq<u8>, count: int) -> Seq<u8>
    decreases count,
{
    if count <= 0 {
        Seq::empty()
    } else {
        repeated(bytes, count - 1) + bytes
    }
}

/// Where a paste goes: behind the region, or in front of it.
pub open spec fn paste_position(r: SelRegion, base_len: int, after: bool) -> int {
    if after {
        int_min(base_len, r.spec_max() + 1)
    } else {
        r.spec_min()
    }
}

/// Pasting: region `i` receives entry `i` of `contents`, or the last entry
/// where there are fewer entries than regions, `count` times in a row.
pub open spec fn paste_edit(
    r: SelRegion,
    i: int,
    base_len: int,
    contents: Seq<Seq<u8>>,
    after: bool,
    count: int,
) -> Edit {
    Edit {
        start: paste_position(r, base_len, after),
        end: paste_position(r, base_len, after),
        bytes: repeated(contents[int_min(i, contents.len() - 1)], count),
    }
}

pub open spec fn deletion_edits(regions: Seq<SelRegion>, base_len: int) -> Seq<Edit> {
    Seq::new(regions.len(), |i: int| deletion_edit(regions[i], base_len))
}

pub open spec fn backspace_edits(regions: Seq<SelRegion>) -> Seq<Edit> {
    Seq::new(regions.len(), |i: int| backspace_edit(regions[i]))
}

pub open spec fn delete_cursor_edits(regions: Seq<SelRegion>, base_len: int) -> Seq<Edit> {
    Seq::new(regions.len(), |i: int| delete_cursor_edit(regions[i], base_len))
}

pub open spec fn insert_edits(regions: Seq<SelRegion>, text: Seq<u8>) -> Seq<Edit> {
    Seq::new(regions.len(), |i: int| insert_edit(regions[i], text))
}

pub open spec fn change_edits(regions: Seq<SelRegion>, base_len: int, text: Seq<u8>) -> Seq<Edit> {
    Seq::new(regions.len(), |i: int| change_edit(regions[i], base_len, text))
}

pub open spec fn replace_edits(regions: Seq<SelRegion>, base_len: int, ch: u8) -> Seq<Edit> {
    Seq::new(regions.len(), |i: int| replace_edit(regions[i], base_len, ch))
}

pub open spec fn paste_edits(
    regions: Seq<SelRegion>,
    base_len: int,
    contents: Seq<Seq<u8>>,
    after: bool,
    count: int,
) -> Seq<Edit> {
    Seq::new(regions.len(), |i: int| paste_edit(regions[i], i, base_len, contents, after, count))
}

/// The views of a list of byte vectors.
pub open spec fn byte_views(contents: Seq<Vec<u8>>) -> Seq<Seq<u8>> {
    Seq::new(contents.len(), |i: int| contents[i]@)
}

/// The length of the document that `edits` make of one of `base_len` bytes.
pub open spec fn edited_len(edits: Seq<Edit>, base_len: int) -> int {
    built_len(edited_view(edits, base_len, edits.len() as int))
}

/// The carets of an ordered selection inside a document ascend, and so do
/// the starts and ends of its regions.
pub proof fn lemma_regions_ascend(regions: Seq<SelRegion>, i: int)
    requires
        sorted_disjoint(regions),
        0 < i < regions.len(),
    ensures
        regions[i - 1].spec_max() < regions[i].spec_min(),
        regions[i - 1].caret < regions[i].caret,
{
}

/// Updates that only delete never make the document longer.
pub proof fn lemma_deleting_len(edits: Seq<Edit>, base_len: int, n: int)
    requires
        edits_in_order(edits, base_len),
        0 <= n <= edits.len(),
        0 <= base_len,
        forall|i: int| 0 <= i < edits.len() ==> (#[trigger] edits[i]).bytes.len() == 0,
    ensures
        view_len(edited_view(edits, base_len, n)) <= if n == 0 {
            0
        } else {
            edits[n - 1].start
        },
        built_len(edited_view(edits, base_len, n)) <= base_len,
    decreases n,
{
    lemma_edited(edits, base_len, n);
    lemma_built(edited_view(edits, base_len, n));
    if n > 0 {
        lemma_deleting_len(edits, base_len, n - 1);
        lemma_edited(edits, base_len, n - 1);
        if n > 1 {
            assert(edits[n - 2].end <= edits[n - 1].start);
        }
        lemma_replaced(edited_view(edits, base_len, n - 1), edits[n - 1]);
    }
}

fn clamped_next(offset: usize, base_len: usize) -> (r: usize)
    ensures
        r == int_min(offset + 1, base_len as int),
{
    if offset < base_len {
        offset + 1
    } else {
        base_len
    }
}

fn empty_rope() -> (r: Rope)
    ensures
        r@ == Seq::<u8>::empty(),
{
    let none: Vec<u8> = Vec::new();
    Rope::from_bytes(none)
}

/// Deletes every region. The caret that stands past the last byte has
/// nothing to delete there.
pub fn deletion(base: &Rope, selection: &Selection) -> (r: RopeDelta)
    requires
        selection.wf(),
        selection@.bounded(base@.len() as int),
        base@.len() <= MAX_DOCUMENT_LEN,
    ensures
        r.pieces() == edits_pieces(
            deletion_edits(selection@.regions, base@.len() as int),
            base@.len() as int,
        ),
        r.fits(base@.len() as int),
{
    let base_len = base.len();
    let regions = selection.iter();
    let ghost want = deletion_edits(regions@, base_len as int);
    let mut edits: Vec<RopeEdit> = Vec::new();
    let mut i: usize = 0;
    while i < regions.len()
        invariant
            i <= regions.len(),
            edits@.len() == i,
            forall|j: int| 0 <= j < i ==> (#[trigger] edits@[j])@ == want[j],
            want == deletion_edits(regions@, base_len as int),
        decreases regions.len() - i,
    {
        let region = regions[i];
        edits.push(
            RopeEdit {
                start: region.min(),
                end: clamped_next(region.max(), base_len),
                rope: empty_rope(),
            },
        );
        i += 1;
    }
    proof {
        assert(edit_views(edits@) =~= want);
        assert forall|i: int| 0 < i < want.len() implies want[i - 1].end <= (
        #[trigger] want[i]).start by {
            lemma_regions_ascend(regions@, i);
        }
        assert forall|i: int| 0 <= i < want.len() implies 0 <= (#[trigger] want[i]).start
            <= want[i].end && want[i].start <= base_len by {
            assert(regions@[i].bounded(base_len as int));
        }
        lemma_deleting_len(want, base_len as int, want.len() as int);
    }
    match delta_of_edits(edits, base_len) {
        Ok(delta) => delta,
        Err(_) => vstd::pervasive::unreached(),
    }
}

/// Deletes the byte before each caret; a caret on the first byte deletes
/// nothing.
pub fn backspace(base: &Rope, selection: &Selection) -> (r: RopeDelta)
    requires
        selection.wf(),
        selection@.bounded(base@.len() as int),
        base@.len() <= MAX_DOCUMENT_LEN,
    ensures
        r.pieces() == edits_pieces(backspace_edits(selection@.regions), base@.len() as int),
        r.fits(base@.len() as int),
{
    let base_len = base.len();
    let regions = selection.iter();
    let ghost want = backspace_edits(regions@);
    let mut edits: Vec<RopeEdit> = Vec::new();
    let mut i: usize = 0;
    while i < regions.len()
        invariant
            i <= regions.len(),
            edits@.len() == i,
            forall|j: int| 0 <= j < i ==> (#[trigger] edits@[j])@ == want[j],
            want == backspace_edits(regions@),
        decreases regions.len() - i,
    {
        let region = regions[i];
        edits.push(
            RopeEdit {
                start: region.caret.saturating_sub(1),
                end: region.caret,
                rope: empty_rope(),
            },
        );
        i += 1;
    }
    proof {
        assert(edit_views(edits@) =~= want);
        assert forall|i: int| 0 < i < want.len() implies want[i - 1].end <= (
        #[trigger] want[i]).start by {
            lemma_regions_ascend(regions@, i);
        }
        assert forall|i: int| 0 <= i < want.len() implies 0 <= (#[trigger] want[i]).start
            <= want[i].end && want[i].start <= base_len by {
            assert(regions@[i].bounded(base_len as int));
        }
        lemma_deleting_len(want, base_len as int, want.len() as int);
    }
    match delta_of_edits(edits, base_len) {
        Ok(delta) => delta,
        Err(_) => vstd::pervasive::unreached(),
    }
}

/// Deletes the byte at each caret; a caret past the last byte deletes
/// nothing.
pub fn delete_cursor(base: &Rope, selection: &Selection) -> (r: RopeDelta)
    requires
        selection.wf(),
        selection@.bounded(base@.len() as int),
        base@.len() <= MAX_DOCUMENT_LEN,
    ensures
        r.pieces() == edits_pieces(
            delete_cursor_edits(selection@.regions, base@.len() as int),
            base@.len() as int,
        ),
        r.fits(base@.len() as int),
{
    let base_len = base.len();
    let regions = selection.iter();
    let ghost want = delete_cursor_edits(regions@, base_len as int);
    let mut edits: Vec<RopeEdit> = Vec::new();
    let mut i: usize = 0;
    while i < regions.len()
        invariant
            i <= regions.len(),
            edits@.len() == i,
            forall|j: int| 0 <= j < i ==> (#[trigger] edits@[j])@ == want[j],
            want == delete_cursor_edits(regions@, base_len as int),
        decreases regions.len() - i,
    {
        let region = regions[i];
        edits.push(
            RopeEdit {
                start: region.caret,
                end: clamped_next(region.caret, base_len),
                rope: empty_rope(),
            },
        );
        i += 1;
    }
    proof {
        assert(edit_views(edits@) =~= want);
        assert forall|i: int| 0 < i < want.len() implies want[i - 1].end <= (
        #[trigger] want[i]).start by {
            lemma_regions_ascend(regions@, i);
        }
        assert forall|i: int| 0 <= i < want.len() implies 0 <= (#[trigger] want[i]).start
            <= want[i].end && want[i].start <= base_len by {
            assert(regions@[i].bounded(base_len as int));
        }
        lemma_deleting_len(want, base_len as int, want.len() as int);
    }
    match delta_of_edits(edits, base_len) {
        Ok(delta) => delta,
        Err(_) => vstd::pervasive::unreached(),
    }
}

/// Inserts `text` at each caret. Refused only where the new document would
/// be longer than `MAX_DOCUMENT_LEN`.
pub fn insert(base: &Rope, selection: &Selection, text: Vec<u8>) -> (r: Result<
    RopeDelta,
    DeltaError,
>)
    requires
        selection.wf(),
        selection@.bounded(base@.len() as int),
        base@.len() <= MAX_DOCUMENT_LEN,
    ensures
        r is Ok == (edited_len(insert_edits(selection@.regions, text@), base@.len() as int)
            <= MAX_DOCUMENT_LEN),
        r matches Ok(delta) ==> delta.pieces() == edits_pieces(
            insert_edits(selection@.regions, text@),
            base@.len() as int,
        ) && delta.fits(base@.len() as int),
        r matches Err(e) ==> e == DeltaError::TooLong,
{
    let base_len = base.len();
    let regions = selection.iter();
    let inserted = Rope::from_bytes(text);
    let ghost want = insert_edits(regions@, inserted@);
    let mut edits: Vec<RopeEdit> = Vec::new();
    let mut i: usize = 0;
    while i < regions.len()
        invariant
            i <= regions.len(),
            edits@.len() == i,
            forall|j: int| 0 <= j < i ==> (#[trigger] edits@[j])@ == want[j],
            want == insert_edits(regions@, inserted@),
        decreases regions.len() - i,
    {
        let region = regions[i];
        edits.push(RopeEdit { start: region.caret, end: region.caret, rope: inserted.clone() });
        i += 1;
    }
    proof {
        assert(edit_views(edits@) =~= want);
        assert forall|i: int| 0 < i < want.len() implies want[i - 1].end <= (
        #[trigger] want[i]).start by {
            lemma_regions_ascend(regions@, i);
        }
        assert forall|i: int| 0 <= i < want.len() implies 0 <= (#[trigger] want[i]).start
            <= want[i].end && want[i].start <= base_len by {
            assert(regions@[i].bounded(base_len as int));
        }
    }
    delta_of_edits(edits, base_len)
}

/// Puts `text` in the place of the byte at each caret; at a caret past the
/// last byte it is appended. Refused only where the new document would be
/// longer than `MAX_DOCUMENT_LEN`.
pub fn change(base: &Rope, selection: &Selection, text: Vec<u8>) -> (r: Result<
    RopeDelta,
    DeltaError,
>)
    requires
        selection.wf(),
        selection@.bounded(base@.len() as int),
        base@.len() <= MAX_DOCUMENT_LEN,
    ensures
        r is Ok == (edited_len(
            change_edits(selection@.regions, base@.len() as int, text@),
            base@.len() as int,
        ) <= MAX_DOCUMENT_LEN),
        r matches Ok(delta) ==> delta.pieces() == edits_pieces(
            change_edits(selection@.regions, base@.len() as int, text@),
            base@.len() as int,
        ) && delta.fits(base@.len() as int),
        r matches Err(e) ==> e == DeltaError::TooLong,
{
    let base_len = base.len();
    let regions = selection.iter();
    let inserted = Rope::from_bytes(text);
    let ghost want = change_edits(regions@, base_len as int, inserted@);
    let mut edits: Vec<RopeEdit> = Vec::new();
    let mut i: usize = 0;
    while i < regions.len()
        invariant
            i <= regions.len(),
            edits@.len() == i,
            forall|j: int| 0 <= j < i ==> (#[trigger] edits@[j])@ == want[j],
            want == change_edits(regions@, base_len as int, inserted@),
        decreases regions.len() - i,
    {
        let region = regions[i];
        edits.push(
            RopeEdit {
                start: region.caret,
                end: clamped_next(region.caret, base_len),
                rope: inserted.clone(),
            },
        );
        i += 1;
    }
    proof {
        assert(edit_views(edits@) =~= want);
        assert forall|i: int| 0 < i < want.len() implies want[i - 1].end <= (
        #[trigger] want[i]).start by {
            lemma_regions_ascend(regions@, i);
        }
        assert forall|i: int| 0 <= i < want.len() implies 0 <= (#[trigger] want[i]).start
            <= want[i].end && want[i].start <= base_len by {
            assert(regions@[i].bounded(base_len as int));
        }
    }
    delta_of_edits(edits, base_len)
}

/// Puts `byte` in the place of the byte at each caret: the first half of a
/// byte that is typed as two hex digits.
pub fn overwrite_half(base: &Rope, selection: &Selection, byte: u8) -> (r: Result<
    RopeDelta,
    DeltaError,
>)
    requires
        selection.wf(),
        selection@.bounded(base@.len() as int),
        base@.len() <= MAX_DOCUMENT_LEN,
    ensures
        r is Ok == (edited_len(
            change_edits(selection@.regions, base@.len() as int, seq![byte]),
            base@.len() as int,
        ) <= MAX_DOCUMENT_LEN),
        r matches Ok(delta) ==> delta.pieces() == edits_pieces(
            change_edits(selection@.regions, base@.len() as int, seq![byte]),
            base@.len() as int,
        ) && delta.fits(base@.len() as int),
        r matches Err(e) ==> e == DeltaError::TooLong,
{
    let mut text: Vec<u8> = Vec::new();
    text.push(byte);
    assert(text@ =~= seq![byte]);
    change(base, selection, text)
}

/// Where one update inserts more bytes than a length can say, so does the
/// whole list.
pub proof fn lemma_too_long(edits: Seq<Edit>, base_len: int, i: int)
    requires
        edits_in_order(edits, base_len),
        0 <= i < edits.len(),
        0 <= base_len,
        edits[i].bytes.len() > usize::MAX,
    ensures
        edited_len(edits, base_len) > usize::MAX,
{
    let v = edited_view(edits, base_len, i);
    lemma_edited(edits, base_len, i);
    if i > 0 {
        assert(edits[i - 1].end <= edits[i].start);
    }
    lemma_replaced(v, edits[i]);
    assert(edited_view(edits, base_len, i + 1) == v.replaced(
        edits[i].start,
        edits[i].end,
        edits[i].bytes,
    ));
    crate::delta::lemma_edited_grows(edits, base_len, i + 1, edits.len() as int);
}

/// `count` copies of `ch`.
fn filled(ch: u8, count: usize) -> (r: Vec<u8>)
    ensures
        r@ == Seq::new(count as nat, |i: int| ch),
{
    let mut bytes: Vec<u8> = Vec::new();
    let mut i: usize = 0;
    while i < count
        invariant
            i <= count,
            bytes@ == Seq::new(i as nat, |j: int| ch),
        decreases count - i,
    {
        bytes.push(ch);
        assert(bytes@ =~= Seq::new((i + 1) as nat, |j: int| ch));
        i += 1;
    }
    bytes
}

/// Overwrites every selected byte with `ch`. Refused only where the new
/// document would be longer than `MAX_DOCUMENT_LEN`.
pub fn replace(base: &Rope, selection: &Selection, ch: u8) -> (r: Result<RopeDelta, DeltaError>)
    requires
        selection.wf(),
        selection@.bounded(base@.len() as int),
        base@.len() <= MAX_DOCUMENT_LEN,
    ensures
        r is Ok == (edited_len(
            replace_edits(selection@.regions, base@.len() as int, ch),
            base@.len() as int,
        ) <= MAX_DOCUMENT_LEN),
        r matches Ok(delta) ==> delta.pieces() == edits_pieces(
            replace_edits(selection@.regions, base@.len() as int, ch),
            base@.len() as int,
        ) && delta.fits(base@.len() as int),
        r matches Err(e) ==> e == DeltaError::TooLong,
{
    let base_len = base.len();
    let regions = selection.iter();
    let ghost want = replace_edits(regions@, base_len as int, ch);
    proof {
        assert forall|i: int| 0 < i < want.len() implies want[i - 1].end <= (
        #[trigger] want[i]).start by {
            lemma_regions_ascend(regions@, i);
        }
        assert forall|i: int| 0 <= i < want.len() implies 0 <= (#[trigger] want[i]).start
            <= want[i].end && want[i].start <= base_len by {
            assert(regions@[i].bounded(base_len as int));
        }
    }
    let mut edits: Vec<RopeEdit> = Vec::new();
    let mut i: usize = 0;
    while i < regions.len()
        invariant
            i <= regions.len(),
            edits@.len() == i,
            forall|j: int| 0 <= j < i ==> (#[trigger] edits@[j])@ == want[j],
            want == replace_edits(regions@, base_len as int, ch),
            edits_in_order(want, base_len as int),
            selection@.bounded(base_len as int),
            regions@ == selection@.regions,
            base_len == base@.len(),
            base_len <= MAX_DOCUMENT_LEN,
        decreases regions.len() - i,
    {
        let region = regions[i];
        assert(region.bounded(base_len as int));
        let span = region.max() - region.min();
        if span == usize::MAX {
            proof {
                assert(want[i as int].bytes.len() > usize::MAX);
                lemma_too_long(want, base_len as int, i as int);
            }
            return Err(DeltaError::TooLong);
        }
        edits.push(
            RopeEdit {
                start: region.min(),
                end: clamped_next(region.max(), base_len),
                rope: Rope::from_bytes(filled(ch, span + 1)),
            },
        );
        i += 1;
    }
    proof {
        assert(edit_views(edits@) =~= want);
    }
    delta_of_edits(edits, base_len)
}

/// `bytes`, `count` times in a row; `None` where that is longer than a
/// length can say.
fn repeat_bytes(bytes: &Vec<u8>, count: usize) -> (r: Option<Vec<u8>>)
    ensures
        r is Some == (repeated(bytes@, count as int).len() <= usize::MAX),
        r matches Some(v) ==> v@ == repeated(bytes@, count as int),
{
    let mut out: Vec<u8> = Vec::new();
    let mut i: usize = 0;
    while i < count
        invariant
            i <= count,
            out@ == repeated(bytes@, i as int),
        decreases count - i,
    {
        if bytes.len() > usize::MAX - out.len() {
            proof {
                assert(repeated(bytes@, i as int + 1).len() == out@.len() + bytes@.len());
                lemma_repeated_grows(bytes@, i as int + 1, count as int);
            }
            return None;
        }
        let ghost before = out@;
        out.extend_from_slice(bytes.as_slice());
        assert(out@ =~= before + bytes@);
        i += 1;
    }
    assert(out@.len() == out.len());
    Some(out)
}

/// More repetitions are no shorter.
pub proof fn lemma_repeated_grows(bytes: Seq<u8>, k: int, n: int)
    requires
        0 <= k <= n,
    ensures
        repeated(bytes, k).len() <= repeated(bytes, n).len(),
    decreases n,
{
    if k < n {
        lemma_repeated_grows(bytes, k, n - 1);
    }
}

/// Inserts the register contents at each region, behind it if `after` and
/// in front of it otherwise. Region `i` receives entry `i` of the contents,
/// or the last entry where there are fewer entries than regions, `count`
/// times in a row. Refused only where the new document would be longer than
/// `MAX_DOCUMENT_LEN`.
pub fn paste(
    base: &Rope,
    selection: &Selection,
    register_contents: &Vec<Vec<u8>>,
    after: bool,
    count: usize,
) -> (r: Result<RopeDelta, DeltaError>)
    requires
        selection.wf(),
        selection@.bounded(base@.len() as int),
        base@.len() <= MAX_DOCUMENT_LEN,
        register_contents@.len() > 0,
    ensures
        r is Ok == (edited_len(
            paste_edits(
                selection@.regions,
                base@.len() as int,
                byte_views(register_contents@),
                after,
                count as int,
            ),
            base@.len() as int,
        ) <= MAX_DOCUMENT_LEN),
        r matches Ok(delta) ==> delta.pieces() == edits_pieces(
            paste_edits(
                selection@.regions,
                base@.len() as int,
                byte_views(register_contents@),
                after,
                count as int,
            ),
            base@.len() as int,
        ) && delta.fits(base@.len() as int),
        r matches Err(e) ==> e == DeltaError::TooLong,
{
    let base_len = base.len();
    let regions = selection.iter();
    let ghost contents = byte_views(register_contents@);
    let ghost want = paste_edits(regions@, base_len as int, contents, after, count as int);
    proof {
        assert forall|i: int| 0 < i < want.len() implies want[i - 1].end <= (
        #[trigger] want[i]).start by {
            lemma_regions_ascend(regions@, i);
        }
        assert forall|i: int| 0 <= i < want.len() implies 0 <= (#[trigger] want[i]).start
            <= want[i].end && want[i].start <= base_len by {
            assert(regions@[i].bounded(base_len as int));
        }
    }
    let mut edits: Vec<RopeEdit> = Vec::new();
    let mut i: usize = 0;
    while i < regions.len()
        invariant
            i <= regions.len(),
            edits@.len() == i,
            register_contents@.len() > 0,
            contents == byte_views(register_contents@),
            forall|j: int| 0 <= j < i ==> (#[trigger] edits@[j])@ == want[j],
            want == paste_edits(regions@, base_len as int, contents, after, count as int),
            edits_in_order(want, base_len as int),
            regions@ == selection@.regions,
            base_len == base@.len(),
            base_len <= MAX_DOCUMENT_LEN,
        decreases regions.len() - i,
    {
        let region = regions[i];
        let entry: usize = if i < register_contents.len() {
            i
        } else {
            register_contents.len() - 1
        };
        assert(contents[entry as int] == register_contents@[entry as int]@);
        let pasted = match repeat_bytes(&register_contents[entry], count) {
            Some(bytes) => bytes,
            None => {
                proof {
                    lemma_too_long(want, base_len as int, i as int);
                }
                return Err(DeltaError::TooLong);
            },
        };
        let insert_pos: usize = if after {
            clamped_next(region.max(), base_len)
        } else {
            region.min()
        };
        edits.push(RopeEdit { start: insert_pos, end: insert_pos, rope: Rope::from_bytes(pasted) });
        i += 1;
    }
    proof {
        assert(edit_views(edits@) =~= want);
    }
    delta_of_edits(edits, base_len)
}

} // verus!
