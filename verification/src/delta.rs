//! Edits as deltas: a delta describes the new document as a sequence of
//! pieces, each either a range copied from the old document or inserted
//! bytes. The deltas themselves are `xi_rope`'s; this module states what they
//! hold and what applying, building and transforming them gives.

use crate::byte_rope::{Rope, RopeInfo};
use vstd::prelude::*;
use xi_rope::delta::{Builder, Delta, DeltaElement, Transformer};
use xi_rope::interval::Interval;

verus! {

/// The longest document that an edit is made for or makes. The limit leaves
/// room for the lengths of a few documents to be added up.
pub const MAX_DOCUMENT_LEN: usize = usize::MAX / 4;

/// One piece of a delta, as specifications see it: the range `start..end` of
/// the old document, or new bytes.
pub enum Piece {
    Copy(int, int),
    Insert(Seq<u8>),
}

/// One piece of a delta, as code sees it.
pub enum DeltaPiece {
    Copy(usize, usize),
    Insert(Rope),
}

impl View for DeltaPiece {
    type V = Piece;

    open spec fn view(&self) -> Piece {
        match self {
            DeltaPiece::Copy(start, end) => Piece::Copy(*start as int, *end as int),
            DeltaPiece::Insert(rope) => Piece::Insert(rope@),
        }
    }
}

/// Why a delta could not be built or applied.
#[derive(Debug, PartialEq, Eq, Clone, Copy, Structural)]
pub enum DeltaError {
    /// An update of a builder starts before the end of the one before it, or
    /// ends before it starts.
    BuilderMisuse,
    /// The delta does not fit the document it is applied to.
    InvalidDelta,
    /// The old or the new document would be longer than `MAX_DOCUMENT_LEN`.
    TooLong,
}

/// The number of bytes that a piece contributes to the new document.
pub open spec fn piece_len(p: Piece) -> int {
    match p {
        Piece::Copy(start, end) => end - start,
        Piece::Insert(bytes) => bytes.len() as int,
    }
}

/// The number of bytes that the first `n` pieces contribute.
pub open spec fn pieces_len(pieces: Seq<Piece>, n: int) -> int
    decreases n,
{
    if n <= 0 {
        0
    } else {
        pieces_len(pieces, n - 1) + piece_len(pieces[n - 1])
    }
}

/// The bytes that a piece stands for, given the old document.
pub open spec fn piece_image(p: Piece, base: Seq<u8>) -> Seq<u8> {
    match p {
        Piece::Copy(start, end) => base.subrange(start, end),
        Piece::Insert(bytes) => bytes,
    }
}

/// What the first `n` pieces make of `base`: their bytes, one after the other.
pub open spec fn pieces_image(pieces: Seq<Piece>, base: Seq<u8>, n: int) -> Seq<u8>
    decreases n,
{
    if n <= 0 {
        Seq::empty()
    } else {
        pieces_image(pieces, base, n - 1) + piece_image(pieces[n - 1], base)
    }
}

/// A piece is not empty, and a copied range lies inside a document of
/// `base_len` bytes.
pub open spec fn piece_fits(p: Piece, base_len: int) -> bool {
    match p {
        Piece::Copy(start, end) => 0 <= start < end <= base_len,
        Piece::Insert(bytes) => bytes.len() > 0,
    }
}

/// Where a copied range ends; 0 for inserted bytes.
pub open spec fn piece_end(p: Piece) -> int {
    match p {
        Piece::Copy(start, end) => end,
        Piece::Insert(bytes) => 0,
    }
}

/// Where a copied range starts; `limit` for inserted bytes.
pub open spec fn piece_start(p: Piece, limit: int) -> int {
    match p {
        Piece::Copy(start, end) => start,
        Piece::Insert(bytes) => limit,
    }
}

/// No piece is empty, every copied range lies inside a document of
/// `base_len` bytes, and the copied ranges come in ascending order without
/// overlap.
pub open spec fn pieces_fit(pieces: Seq<Piece>, base_len: int) -> bool {
    &&& forall|i: int| 0 <= i < pieces.len() ==> piece_fits(#[trigger] pieces[i], base_len)
    &&& forall|i: int, j: int|
        0 <= i < j < pieces.len() ==> piece_end(#[trigger] pieces[i]) <= piece_start(
            #[trigger] pieces[j],
            base_len,
        )
}

/// Every copied range ends at or before `limit`.
pub open spec fn pieces_end_by(pieces: Seq<Piece>, limit: int) -> bool {
    forall|i: int| 0 <= i < pieces.len() ==> piece_end(#[trigger] pieces[i]) <= limit
}

/// Where the offset `ix` of the old document lies in the new one, going
/// through the pieces from the `i`th on with `acc` bytes of the new document
/// behind. An offset inside a copied range moves with it; one in a gap moves
/// to where the gap was. At the end of a copied range that new bytes follow,
/// `after` says whether the offset lands behind them.
pub open spec fn transformed_from(pieces: Seq<Piece>, ix: int, after: bool, i: int, acc: int) -> int
    decreases pieces.len() - i,
{
    if i < 0 || i >= pieces.len() {
        acc
    } else {
        match pieces[i] {
            Piece::Copy(start, end) => if ix <= start {
                acc
            } else if ix < end || (ix == end && !after) {
                acc + ix - start
            } else {
                transformed_from(pieces, ix, after, i + 1, acc + end - start)
            },
            Piece::Insert(bytes) => transformed_from(pieces, ix, after, i + 1, acc + bytes.len()),
        }
    }
}

/// Where the offset `ix` of the old document lies in the new one.
pub open spec fn transformed(pieces: Seq<Piece>, ix: int, after: bool) -> int {
    if ix == 0 && !after {
        0
    } else {
        transformed_from(pieces, ix, after, 0, 0)
    }
}

/// The views of a list of pieces.
pub open spec fn piece_views(pieces: Seq<DeltaPiece>) -> Seq<Piece> {
    Seq::new(pieces.len(), |i: int| pieces[i]@)
}

/// An edit from a document of `base_len()` bytes to a new one, held as
/// `xi_rope`'s delta.
#[verifier::external_body]
pub struct RopeDelta(pub(crate) Delta<RopeInfo>);

/// The pieces of a delta, in order.
pub uninterp spec fn delta_pieces(delta: RopeDelta) -> Seq<Piece>;

/// The length of the document that a delta was made for.
pub uninterp spec fn delta_base_len(delta: RopeDelta) -> nat;

/// `Delta::clone`: a delta with the same pieces for the same document.
#[verifier::external_body]
fn delta_clone(delta: &RopeDelta) -> (r: RopeDelta)
    ensures
        delta_pieces(r) == delta_pieces(*delta),
        delta_base_len(r) == delta_base_len(*delta),
{
    RopeDelta(delta.0.clone())
}

/// The fields `els` and `base_len` of `Delta`: the pieces, each as a value of
/// this library, and the length of the old document.
#[verifier::external_body]
fn delta_elements(delta: &RopeDelta) -> (r: (Vec<DeltaPiece>, usize))
    ensures
        piece_views(r.0@) == delta_pieces(*delta),
        r.1 == delta_base_len(*delta),
{
    let pieces = delta.0.els.iter().map(|el| match el {
        DeltaElement::Copy(start, end) => DeltaPiece::Copy(*start, *end),
        DeltaElement::Insert(node) => DeltaPiece::Insert(Rope(node.clone())),
    }).collect();
    (pieces, delta.0.base_len)
}

/// `Delta::apply`: the bytes of the pieces, one after the other, where each
/// copied range is taken from `base`.
#[verifier::external_body]
fn delta_apply(delta: &RopeDelta, base: &Rope) -> (r: Rope)
    requires
        delta.fits(base@.len() as int),
    ensures
        r@ == delta.image(base@),
{
    Rope(delta.0.apply(&base.0))
}

/// `Delta::new_document_len`: the sum of the lengths of the pieces.
#[verifier::external_body]
fn delta_new_document_len(delta: &RopeDelta) -> (r: usize)
    requires
        delta.fits(delta.base_len() as int),
    ensures
        r == delta.new_len(),
{
    delta.0.new_document_len()
}

/// `Transformer::new` and `Transformer::transform`: where an offset of the old
/// document lies in the new one.
#[verifier::external_body]
fn delta_transform(delta: &RopeDelta, ix: usize, after: bool) -> (r: usize)
    requires
        delta.fits(delta.base_len() as int),
    ensures
        r == transformed(delta.pieces(), ix as int, after),
{
    Transformer::new(&delta.0).transform(ix, after)
}

impl Clone for RopeDelta {
    fn clone(&self) -> (r: RopeDelta)
        ensures
            r.pieces() == self.pieces(),
            r.base_len() == self.base_len(),
    {
        delta_clone(self)
    }
}

impl RopeDelta {
    /// The pieces, in order.
    pub open spec fn pieces(&self) -> Seq<Piece> {
        delta_pieces(*self)
    }

    /// The length of the document that the delta was made for.
    pub open spec fn base_len(&self) -> nat {
        delta_base_len(*self)
    }

    /// The length of the document that the delta makes.
    pub open spec fn new_len(&self) -> int {
        pieces_len(self.pieces(), self.pieces().len() as int)
    }

    /// The delta can be applied to a document of `len` bytes: it was made for
    /// that length, copies only from inside it and in ascending order, holds
    /// no empty piece, and neither the old nor the new document is longer
    /// than `MAX_DOCUMENT_LEN`.
    pub open spec fn fits(&self, len: int) -> bool {
        &&& self.base_len() == len
        &&& len <= MAX_DOCUMENT_LEN
        &&& pieces_fit(self.pieces(), len)
        &&& self.new_len() <= MAX_DOCUMENT_LEN
    }

    /// The document that the delta makes of `base`.
    pub open spec fn image(&self, base: Seq<u8>) -> Seq<u8> {
        pieces_image(self.pieces(), base, self.pieces().len() as int)
    }

    /// The pieces, in order.
    pub fn elements(&self) -> (r: Vec<DeltaPiece>)
        ensures
            piece_views(r@) == self.pieces(),
    {
        delta_elements(self).0
    }

    /// The length of the document that the delta was made for.
    pub fn base_document_len(&self) -> (r: usize)
        ensures
            r == self.base_len(),
    {
        delta_elements(self).1
    }

    /// Whether the delta can be applied to a document of `len` bytes.
    pub fn applies_to(&self, len: usize) -> (r: bool)
        ensures
            r == self.fits(len as int),
    {
        let (pieces, base_len) = delta_elements(self);
        if base_len != len || len > MAX_DOCUMENT_LEN {
            return false;
        }
        let ghost views = piece_views(pieces@);
        let mut total: usize = 0;
        let mut last_end: usize = 0;
        let ghost mut last_ix: int = 0;
        let mut i: usize = 0;
        while i < pieces.len()
            invariant
                i <= pieces.len(),
                last_end > 0 ==> 0 <= last_ix < i && piece_end(views[last_ix]) == last_end,
                views == piece_views(pieces@),
                views == self.pieces(),
                total == pieces_len(views, i as int),
                last_end <= len,
                forall|j: int| 0 <= j < i ==> piece_fits(#[trigger] views[j], len as int),
                forall|j: int| 0 <= j < i ==> piece_end(#[trigger] views[j]) <= last_end,
                forall|j: int, k: int|
                    0 <= j < k < i ==> piece_end(#[trigger] views[j]) <= piece_start(
                        #[trigger] views[k],
                        len as int,
                    ),
            decreases pieces.len() - i,
        {
            assert(views[i as int] == pieces@[i as int]@);
            let piece_len: usize = match &pieces[i] {
                DeltaPiece::Copy(start, end) => {
                    if *start >= *end || *end > len || *start < last_end {
                        proof {
                            if *start < last_end && *start < *end && *end <= len {
                                assert(piece_end(views[last_ix]) > piece_start(
                                    views[i as int],
                                    len as int,
                                ));
                            }
                        }
                        return false;
                    }
                    last_end = *end;
                    proof {
                        last_ix = i as int;
                    }
                    *end - *start
                },
                DeltaPiece::Insert(rope) => {
                    if rope.len() == 0 {
                        return false;
                    }
                    rope.len()
                },
            };
            match total.checked_add(piece_len) {
                Some(sum) => {
                    total = sum;
                },
                None => {
                    proof {
                        if pieces_fit(views, len as int) {
                            lemma_pieces_len_monotone(
                                views,
                                i as int + 1,
                                views.len() as int,
                                len as int,
                            );
                        }
                    }
                    return false;
                },
            }
            i += 1;
        }
        total <= MAX_DOCUMENT_LEN
    }

    /// The length of the document that the delta makes.
    pub fn new_document_len(&self) -> (r: usize)
        requires
            self.fits(self.base_len() as int),
        ensures
            r == self.new_len(),
    {
        delta_new_document_len(self)
    }

    /// Where the offset `ix` of the old document lies in the new one. At the
    /// end of a copied range that new bytes follow, `after` says whether the
    /// offset lands behind them.
    pub fn transform(&self, ix: usize, after: bool) -> (r: usize)
        requires
            self.fits(self.base_len() as int),
        ensures
            r == transformed(self.pieces(), ix as int, after),
    {
        delta_transform(self, ix, after)
    }
}

impl Rope {
    /// The document that `delta` makes of this one. The rope itself stays as
    /// it is. A delta that does not fit is refused.
    pub fn apply_delta(&self, delta: &RopeDelta) -> (r: Result<Rope, DeltaError>)
        ensures
            r is Ok == delta.fits(self@.len() as int),
            r matches Ok(rope) ==> rope@ == delta.image(self@),
            r matches Err(e) ==> e == DeltaError::InvalidDelta,
    {
        if delta.applies_to(self.len()) {
            Ok(delta_apply(delta, self))
        } else {
            Err(DeltaError::InvalidDelta)
        }
    }
}

/// With pieces that fit, the lengths add up: fewer pieces give no more bytes.
pub proof fn lemma_pieces_len_monotone(pieces: Seq<Piece>, k: int, n: int, base_len: int)
    requires
        0 <= k <= n <= pieces.len(),
    ensures
        pieces_fit(pieces, base_len) ==> 0 <= pieces_len(pieces, k) <= pieces_len(pieces, n),
    decreases n,
{
    if n > 0 {
        if k < n {
            lemma_pieces_len_monotone(pieces, k, n - 1, base_len);
        } else {
            lemma_pieces_len_monotone(pieces, k - 1, n - 1, base_len);
        }
        if pieces_fit(pieces, base_len) {
            assert(piece_fits(pieces[n - 1], base_len));
        }
    }
}

/// The image of pieces that fit is as long as the pieces say.
pub proof fn lemma_image_len(pieces: Seq<Piece>, base: Seq<u8>, n: int)
    requires
        0 <= n <= pieces.len(),
        pieces_fit(pieces, base.len() as int),
    ensures
        pieces_image(pieces, base, n).len() == pieces_len(pieces, n),
    decreases n,
{
    if n > 0 {
        lemma_image_len(pieces, base, n - 1);
        assert(piece_fits(pieces[n - 1], base.len() as int));
    }
}

/// One update of a builder: the range `start..end` of the old document is
/// replaced by `bytes`.
pub struct Edit {
    pub start: int,
    pub end: int,
    pub bytes: Seq<u8>,
}

/// What a builder holds: the pieces so far, the end of the last update, and
/// the length of the old document.
pub struct BuilderView {
    pub pieces: Seq<Piece>,
    pub last_offset: int,
    pub base_len: int,
}

impl BuilderView {
    /// A builder without updates.
    pub open spec fn empty(base_len: int) -> BuilderView {
        BuilderView { pieces: Seq::empty(), last_offset: 0, base_len }
    }

    /// Whether the builder takes an update of `start..end`.
    pub open spec fn accepts(self, start: int, end: int) -> bool {
        self.last_offset <= start <= end
    }

    /// The builder after `start..end` was deleted: what lies between the last
    /// update and `start` is copied.
    pub open spec fn deleted(self, start: int, end: int) -> BuilderView {
        BuilderView {
            pieces: if start > self.last_offset {
                self.pieces.push(Piece::Copy(self.last_offset, start))
            } else {
                self.pieces
            },
            last_offset: end,
            base_len: self.base_len,
        }
    }

    /// The builder after `start..end` was replaced by `bytes`.
    pub open spec fn replaced(self, start: int, end: int, bytes: Seq<u8>) -> BuilderView {
        let d = self.deleted(start, end);
        BuilderView {
            pieces: if bytes.len() > 0 {
                d.pieces.push(Piece::Insert(bytes))
            } else {
                d.pieces
            },
            last_offset: d.last_offset,
            base_len: d.base_len,
        }
    }

    /// The pieces of the finished delta: what lies behind the last update is
    /// copied.
    pub open spec fn built(self) -> Seq<Piece> {
        if self.last_offset < self.base_len {
            self.pieces.push(Piece::Copy(self.last_offset, self.base_len))
        } else {
            self.pieces
        }
    }

    /// The builder after the first `n` of `edits`.
    pub open spec fn edited(self, edits: Seq<Edit>, n: int) -> BuilderView
        decreases n,
    {
        if n <= 0 {
            self
        } else {
            self.edited(edits, n - 1).replaced(edits[n - 1].start, edits[n - 1].end, edits[n - 1].bytes)
        }
    }
}

/// The pieces of the delta that makes `edits`, in order, on a document of
/// `base_len` bytes.
pub open spec fn edits_pieces(edits: Seq<Edit>, base_len: int) -> Seq<Piece> {
    BuilderView::empty(base_len).edited(edits, edits.len() as int).built()
}

/// `xi_rope`'s delta builder.
#[verifier::external_body]
pub struct RawBuilder(Builder<RopeInfo>);

/// The pieces that a builder holds.
pub uninterp spec fn builder_pieces(builder: RawBuilder) -> Seq<Piece>;

/// The end of the last update of a builder.
pub uninterp spec fn builder_last_offset(builder: RawBuilder) -> nat;

/// The length of the document that a builder was made for.
pub uninterp spec fn builder_base_len(builder: RawBuilder) -> nat;

/// What a raw builder holds.
pub open spec fn raw_view(builder: RawBuilder) -> BuilderView {
    BuilderView {
        pieces: builder_pieces(builder),
        last_offset: builder_last_offset(builder) as int,
        base_len: builder_base_len(builder) as int,
    }
}

/// `Builder::new`: a builder without updates.
#[verifier::external_body]
fn raw_builder_new(base_len: usize) -> (r: RawBuilder)
    ensures
        builder_pieces(r) == Seq::<Piece>::empty(),
        builder_last_offset(r) == 0,
        builder_base_len(r) == base_len,
{
    RawBuilder(Builder::new(base_len))
}

/// `Builder::delete`: what lies between the last update and `start` is
/// copied, and the next update must not start before `end`.
#[verifier::external_body]
fn raw_builder_delete(builder: &mut RawBuilder, start: usize, end: usize)
    requires
        builder_last_offset(*old(builder)) <= start <= end,
    ensures
        builder_pieces(*final(builder)) == raw_view(*old(builder)).deleted(
            start as int,
            end as int,
        ).pieces,
        builder_last_offset(*final(builder)) == end,
        builder_base_len(*final(builder)) == builder_base_len(*old(builder)),
{
    builder.0.delete(Interval::new(start, end))
}

/// `Builder::replace`: as `Builder::delete`, and then the bytes of `rope`
/// are inserted if there are any.
#[verifier::external_body]
fn raw_builder_replace(builder: &mut RawBuilder, start: usize, end: usize, rope: Rope)
    requires
        builder_last_offset(*old(builder)) <= start <= end,
    ensures
        builder_pieces(*final(builder)) == raw_view(*old(builder)).replaced(
            start as int,
            end as int,
            rope@,
        ).pieces,
        builder_last_offset(*final(builder)) == end,
        builder_base_len(*final(builder)) == builder_base_len(*old(builder)),
{
    builder.0.replace(Interval::new(start, end), rope.0)
}

/// `Builder::build`: the delta of the pieces, where what lies behind the last
/// update is copied.
#[verifier::external_body]
fn raw_builder_build(builder: RawBuilder) -> (r: RopeDelta)
    ensures
        delta_pieces(r) == raw_view(builder).built(),
        delta_base_len(r) == builder_base_len(builder),
{
    RopeDelta(builder.0.build())
}

/// Builds a delta from updates that come in the order of the document and
/// do not overlap.
pub struct DeltaBuilder {
    raw: RawBuilder,
    base_len: usize,
    last_offset: usize,
    /// The bytes of the pieces so far.
    len: usize,
}

impl View for DeltaBuilder {
    type V = BuilderView;

    closed spec fn view(&self) -> BuilderView {
        raw_view(self.raw)
    }
}

impl DeltaBuilder {
    /// The fields say what the raw builder holds, every update lies inside
    /// the document, and the pieces are no longer than a length can say.
    pub closed spec fn wf(&self) -> bool {
        &&& raw_view(self.raw).base_len == self.base_len
        &&& raw_view(self.raw).last_offset == self.last_offset
        &&& self.len == pieces_len(raw_view(self.raw).pieces, raw_view(self.raw).pieces.len() as int)
        &&& pieces_fit(raw_view(self.raw).pieces, self.base_len as int)
        &&& pieces_end_by(raw_view(self.raw).pieces, self.last_offset as int)
    }

    /// A builder for a document of `base_len` bytes.
    pub fn new(base_len: usize) -> (r: DeltaBuilder)
        ensures
            r.wf(),
            r@ == BuilderView::empty(base_len as int),
            r.pieces_len() == 0,
    {
        DeltaBuilder { raw: raw_builder_new(base_len), base_len, last_offset: 0, len: 0 }
    }

    /// Whether an update of `start..end` is in order: it starts at or behind
    /// the end of the last one, inside the document or at its end, and does
    /// not end before it starts.
    pub open spec fn in_order(v: BuilderView, start: int, end: int) -> bool {
        v.accepts(start, end) && start <= v.base_len
    }

    /// Deletes `start..end`. An update out of order is refused, and so is
    /// one that makes the pieces longer than a length can say.
    pub fn delete(&mut self, start: usize, end: usize) -> (r: Result<(), DeltaError>)
        requires
            old(self).wf(),
        ensures
            final(self).wf(),
            r is Ok ==> final(self)@ == old(self)@.deleted(start as int, end as int),
            r is Err ==> final(self)@ == old(self)@,
            r matches Err(e) ==> e == DeltaError::BuilderMisuse || e == DeltaError::TooLong,
            (r matches Err(e) && e == DeltaError::BuilderMisuse) == !Self::in_order(
                old(self)@,
                start as int,
                end as int,
            ),
            (r matches Err(e) && e == DeltaError::TooLong) == (Self::in_order(
                old(self)@,
                start as int,
                end as int,
            ) && old(self).pieces_len() + (start - old(self)@.last_offset) > usize::MAX),
            r is Ok ==> final(self).pieces_len() == old(self).pieces_len() + (start
                - old(self)@.last_offset),
    {
        if start < self.last_offset || end < start || start > self.base_len {
            return Err(DeltaError::BuilderMisuse);
        }
        match self.len.checked_add(start - self.last_offset) {
            Some(len) => {
                let ghost before = raw_view(self.raw);
                raw_builder_delete(&mut self.raw, start, end);
                proof {
                    lemma_replaced(
                        before,
                        Edit { start: start as int, end: end as int, bytes: Seq::empty() },
                    );
                }
                self.last_offset = end;
                self.len = len;
                Ok(())
            },
            None => Err(DeltaError::TooLong),
        }
    }

    /// The number of bytes of the pieces so far.
    pub closed spec fn pieces_len(&self) -> int {
        self.len as int
    }

    /// Replaces `start..end` by the bytes of `rope`. An update out of order
    /// is refused, and so is one that makes the pieces longer than a length
    /// can say.
    pub fn replace(&mut self, start: usize, end: usize, rope: Rope) -> (r: Result<(), DeltaError>)
        requires
            old(self).wf(),
        ensures
            final(self).wf(),
            r is Ok ==> final(self)@ == old(self)@.replaced(start as int, end as int, rope@),
            r is Err ==> final(self)@ == old(self)@,
            r matches Err(e) ==> e == DeltaError::BuilderMisuse || e == DeltaError::TooLong,
            (r matches Err(e) && e == DeltaError::BuilderMisuse) == !Self::in_order(
                old(self)@,
                start as int,
                end as int,
            ),
            (r matches Err(e) && e == DeltaError::TooLong) == (Self::in_order(
                old(self)@,
                start as int,
                end as int,
            ) && old(self).pieces_len() + (start - old(self)@.last_offset) + rope@.len()
                > usize::MAX),
            r is Ok ==> final(self).pieces_len() == old(self).pieces_len() + (start
                - old(self)@.last_offset) + rope@.len(),
    {
        if start < self.last_offset || end < start || start > self.base_len {
            return Err(DeltaError::BuilderMisuse);
        }
        let copied = start - self.last_offset;
        let inserted = rope.len();
        let grown = match self.len.checked_add(copied) {
            Some(sum) => sum.checked_add(inserted),
            None => None,
        };
        match grown {
            Some(len) => {
                let ghost before = raw_view(self.raw);
                raw_builder_replace(&mut self.raw, start, end, rope);
                proof {
                    lemma_replaced(
                        before,
                        Edit { start: start as int, end: end as int, bytes: rope@ },
                    );
                }
                self.last_offset = end;
                self.len = len;
                Ok(())
            },
            None => Err(DeltaError::TooLong),
        }
    }

    /// The delta of the updates. Refused where the old or the new document
    /// is longer than `MAX_DOCUMENT_LEN`.
    pub fn build(self) -> (r: Result<RopeDelta, DeltaError>)
        requires
            self.wf(),
        ensures
            r matches Ok(delta) ==> delta.pieces() == self@.built() && delta.fits(
                self@.base_len,
            ),
            r matches Err(e) ==> e == DeltaError::TooLong,
            r is Ok == (built_len(self@) <= MAX_DOCUMENT_LEN && self@.base_len
                <= MAX_DOCUMENT_LEN),
    {
        let rest: usize = if self.last_offset < self.base_len {
            self.base_len - self.last_offset
        } else {
            0
        };
        proof {
            lemma_built(raw_view(self.raw));
        }
        if self.base_len > MAX_DOCUMENT_LEN {
            return Err(DeltaError::TooLong);
        }
        match self.len.checked_add(rest) {
            Some(total) => {
                if total > MAX_DOCUMENT_LEN {
                    return Err(DeltaError::TooLong);
                }
                Ok(raw_builder_build(self.raw))
            },
            None => Err(DeltaError::TooLong),
        }
    }
}

/// One more piece adds its length.
pub proof fn lemma_pieces_len_push(pieces: Seq<Piece>, p: Piece)
    ensures
        pieces_len(pieces.push(p), pieces.len() as int + 1) == pieces_len(pieces, pieces.len() as int)
            + piece_len(p),
{
    lemma_pieces_len_prefix(pieces.push(p), pieces, pieces.len() as int);
}

/// The length of the first `n` pieces depends on those pieces only.
pub proof fn lemma_pieces_len_prefix(a: Seq<Piece>, b: Seq<Piece>, n: int)
    requires
        0 <= n <= a.len(),
        n <= b.len(),
        forall|i: int| 0 <= i < n ==> a[i] == b[i],
    ensures
        pieces_len(a, n) == pieces_len(b, n),
    decreases n,
{
    if n > 0 {
        lemma_pieces_len_prefix(a, b, n - 1);
    }
}


/// One update for a builder, as code holds it.
pub struct RopeEdit {
    pub start: usize,
    pub end: usize,
    pub rope: Rope,
}

impl View for RopeEdit {
    type V = Edit;

    open spec fn view(&self) -> Edit {
        Edit { start: self.start as int, end: self.end as int, bytes: self.rope@ }
    }
}

/// The views of a list of updates.
pub open spec fn edit_views(edits: Seq<RopeEdit>) -> Seq<Edit> {
    Seq::new(edits.len(), |i: int| edits[i]@)
}

/// The updates come in the order of the document and do not overlap: each
/// starts inside the document or at its end, does not end before it starts,
/// and does not start before the end of the one before it.
pub open spec fn edits_in_order(edits: Seq<Edit>, base_len: int) -> bool {
    &&& forall|i: int|
        0 <= i < edits.len() ==> 0 <= (#[trigger] edits[i]).start <= edits[i].end
            && edits[i].start <= base_len
    &&& forall|i: int| 0 < i < edits.len() ==> edits[i - 1].end <= (#[trigger] edits[i]).start
}

/// The end of the last of the first `n` updates.
pub open spec fn edits_end(edits: Seq<Edit>, n: int) -> int {
    if n <= 0 {
        0
    } else {
        edits[n - 1].end
    }
}

/// The builder that took the first `n` of `edits`.
pub open spec fn edited_view(edits: Seq<Edit>, base_len: int, n: int) -> BuilderView {
    BuilderView::empty(base_len).edited(edits, n)
}

/// The number of bytes of the pieces that a builder holds.
pub open spec fn view_len(v: BuilderView) -> int {
    pieces_len(v.pieces, v.pieces.len() as int)
}

/// The number of bytes of the document that a builder makes.
pub open spec fn built_len(v: BuilderView) -> int {
    pieces_len(v.built(), v.built().len() as int)
}

/// One update in order keeps the pieces of a builder fitting and adds what
/// is copied and what is inserted to their length.
pub proof fn lemma_replaced(v: BuilderView, e: Edit)
    requires
        pieces_fit(v.pieces, v.base_len),
        pieces_end_by(v.pieces, v.last_offset),
        0 <= v.last_offset <= e.start <= e.end,
        e.start <= v.base_len,
    ensures
        pieces_fit(v.replaced(e.start, e.end, e.bytes).pieces, v.base_len),
        pieces_end_by(v.replaced(e.start, e.end, e.bytes).pieces, e.end),
        view_len(v.replaced(e.start, e.end, e.bytes)) == view_len(v) + (e.start - v.last_offset)
            + e.bytes.len(),
{
    let d = v.deleted(e.start, e.end);
    let r = v.replaced(e.start, e.end, e.bytes);
    lemma_pieces_len_push(v.pieces, Piece::Copy(v.last_offset, e.start));
    lemma_pieces_len_push(d.pieces, Piece::Insert(e.bytes));
    assert forall|i: int| 0 <= i < r.pieces.len() implies piece_fits(
        #[trigger] r.pieces[i],
        v.base_len,
    ) && piece_end(r.pieces[i]) <= e.end by {
        if i < v.pieces.len() {
            assert(piece_fits(v.pieces[i], v.base_len));
            assert(piece_end(v.pieces[i]) <= v.last_offset);
        }
    }
    assert forall|i: int, j: int| 0 <= i < j < r.pieces.len() implies piece_end(
        #[trigger] r.pieces[i],
    ) <= piece_start(#[trigger] r.pieces[j], v.base_len) by {
        if i < v.pieces.len() {
            assert(piece_end(v.pieces[i]) <= v.last_offset);
            assert(piece_fits(v.pieces[i], v.base_len));
        }
        if j < v.pieces.len() {
            assert(piece_end(v.pieces[i]) <= piece_start(v.pieces[j], v.base_len));
        }
    }
}

/// Finishing a builder keeps the pieces fitting and adds what is copied
/// behind the last update to their length.
pub proof fn lemma_built(v: BuilderView)
    requires
        pieces_fit(v.pieces, v.base_len),
        pieces_end_by(v.pieces, v.last_offset),
        0 <= v.last_offset,
    ensures
        pieces_fit(v.built(), v.base_len),
        built_len(v) == view_len(v) + if v.last_offset < v.base_len {
            v.base_len - v.last_offset
        } else {
            0
        },
{
    lemma_pieces_len_push(v.pieces, Piece::Copy(v.last_offset, v.base_len));
    let b = v.built();
    assert forall|i: int| 0 <= i < b.len() implies piece_fits(#[trigger] b[i], v.base_len) by {
        if i < v.pieces.len() {
            assert(piece_fits(v.pieces[i], v.base_len));
        }
    }
    assert forall|i: int, j: int| 0 <= i < j < b.len() implies piece_end(#[trigger] b[i])
        <= piece_start(#[trigger] b[j], v.base_len) by {
        if i < v.pieces.len() {
            assert(piece_end(v.pieces[i]) <= v.last_offset);
            assert(piece_fits(v.pieces[i], v.base_len));
        }
        if j < v.pieces.len() {
            assert(piece_end(v.pieces[i]) <= piece_start(v.pieces[j], v.base_len));
        }
    }
}

/// A builder that took the first `n` of a list of updates in order holds
/// pieces that fit and ends where the last update ends.
pub proof fn lemma_edited(edits: Seq<Edit>, base_len: int, n: int)
    requires
        edits_in_order(edits, base_len),
        0 <= n <= edits.len(),
        0 <= base_len,
    ensures
        edited_view(edits, base_len, n).last_offset == edits_end(edits, n),
        edited_view(edits, base_len, n).base_len == base_len,
        pieces_fit(edited_view(edits, base_len, n).pieces, base_len),
        pieces_end_by(edited_view(edits, base_len, n).pieces, edits_end(edits, n)),
        0 <= view_len(edited_view(edits, base_len, n)),
    decreases n,
{
    if n > 0 {
        lemma_edited(edits, base_len, n - 1);
        let e = edits[n - 1];
        if n > 1 {
            assert(edits[n - 2].end <= e.start);
        }
        lemma_replaced(edited_view(edits, base_len, n - 1), e);
    }
}

/// The pieces of a builder only grow: after more updates they hold no fewer
/// bytes, and the finished document holds no fewer still.
pub proof fn lemma_edited_grows(edits: Seq<Edit>, base_len: int, k: int, n: int)
    requires
        edits_in_order(edits, base_len),
        0 <= k <= n <= edits.len(),
        0 <= base_len,
    ensures
        view_len(edited_view(edits, base_len, k)) <= view_len(edited_view(edits, base_len, n))
            <= built_len(edited_view(edits, base_len, n)),
    decreases n,
{
    lemma_edited(edits, base_len, n);
    lemma_built(edited_view(edits, base_len, n));
    if k < n {
        lemma_edited_grows(edits, base_len, k, n - 1);
        lemma_edited(edits, base_len, n - 1);
        let e = edits[n - 1];
        if n > 1 {
            assert(edits[n - 2].end <= e.start);
        }
        lemma_replaced(edited_view(edits, base_len, n - 1), e);
    }
}

/// The delta that makes `edits`, in order, on a document of `base_len` bytes.
/// Refused only where the new document would be longer than
/// `MAX_DOCUMENT_LEN`.
pub fn delta_of_edits(edits: Vec<RopeEdit>, base_len: usize) -> (r: Result<RopeDelta, DeltaError>)
    requires
        edits_in_order(edit_views(edits@), base_len as int),
        base_len <= MAX_DOCUMENT_LEN,
    ensures
        r is Ok == (built_len(
            edited_view(edit_views(edits@), base_len as int, edits@.len() as int),
        ) <= MAX_DOCUMENT_LEN),
        r matches Ok(delta) ==> delta.pieces() == edits_pieces(
            edit_views(edits@),
            base_len as int,
        ) && delta.fits(base_len as int),
        r matches Err(e) ==> e == DeltaError::TooLong,
{
    let ghost views = edit_views(edits@);
    let ghost n = views.len() as int;
    assert(n == edits.len());
    let mut builder = DeltaBuilder::new(base_len);
    let mut pending = edits;
    let mut rest: Vec<RopeEdit> = Vec::new();
    // The updates are taken from the back of `edits`; `rest` holds them in
    // reverse, so that they can be handed over one by one without a copy.
    while pending.len() > 0
        invariant
            rest@.len() + pending@.len() == views.len(),
            forall|j: int| 0 <= j < pending@.len() ==> (#[trigger] pending@[j])@ == views[j],
            forall|j: int|
                0 <= j < rest@.len() ==> (#[trigger] rest@[j])@ == views[views.len() - 1 - j],
        decreases pending.len(),
    {
        let e = pending.pop();
        match e {
            Some(edit) => {
                rest.push(edit);
            },
            None => {},
        }
    }
    let mut i: usize = 0;
    while rest.len() > 0
        invariant
            builder.wf(),
            i + rest@.len() == n,
            n == views.len(),
            n <= usize::MAX,
            base_len <= MAX_DOCUMENT_LEN,
            views == edit_views(edits@),
            edits_in_order(views, base_len as int),
            builder@ == edited_view(views, base_len as int, i as int),
            builder.pieces_len() == view_len(builder@),
            forall|j: int|
                0 <= j < rest@.len() ==> (#[trigger] rest@[j])@ == views[views.len() - 1 - j],
        decreases rest.len(),
    {
        let e = rest.pop();
        match e {
            Some(edit) => {
                let ghost before = builder@;
                let ghost before_len = builder.pieces_len();
                let ghost ev = views[i as int];
                assert(edit@ == ev);
                assert(DeltaBuilder::in_order(before, ev.start, ev.end)) by {
                    lemma_edited(views, base_len as int, i as int);
                    if i > 0 {
                        assert(views[i as int - 1].end <= views[i as int].start);
                    }
                }
                assert(before.replaced(ev.start, ev.end, ev.bytes) == edited_view(
                    views,
                    base_len as int,
                    i as int + 1,
                ));
                assert(view_len(before.replaced(ev.start, ev.end, ev.bytes)) == view_len(before)
                    + (ev.start - before.last_offset) + ev.bytes.len()) by {
                    lemma_edited(views, base_len as int, i as int);
                    lemma_replaced(before, ev);
                }
                let done = builder.replace(edit.start, edit.end, edit.rope);
                match done {
                    Ok(()) => {},
                    Err(e) => {
                        proof {
                            assert(e == DeltaError::TooLong);
                            assert(before_len + (ev.start - before.last_offset) + ev.bytes.len()
                                > usize::MAX);
                            assert(view_len(edited_view(views, base_len as int, i as int + 1))
                                > usize::MAX);
                            lemma_edited_grows(views, base_len as int, i as int + 1, n);
                        }
                        return Err(DeltaError::TooLong);
                    },
                }
                i += 1;
            },
            None => {},
        }
    }
    proof {
        lemma_edited(views, base_len as int, n);
        lemma_built(edited_view(views, base_len as int, n));
    }
    builder.build()
}

} // verus!
