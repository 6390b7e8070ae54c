//! Reversing edits and keeping them for undo and redo.
//!
//! An edit is reversed by factoring it into what it inserts and what it
//! deletes and putting the two together the other way round; the edits of
//! one run of typing are composed into one. Both rest on `xi_rope`'s subset
//! arithmetic.

use crate::byte_rope::{Rope, RopeInfo};
use crate::delta::{
    lemma_image_len, piece_image, pieces_fit, pieces_image, pieces_len, Piece,
    RopeDelta, MAX_DOCUMENT_LEN,
};
use crate::selection::{Selection, SelectionView};
use crate::subset::{
    binary, dropped, expanded, kept, lemma_dropped_apart, lemma_dropped_expanded,
    lemma_expanded_binary, lemma_expanded_shrunk, lemma_expanded_through_none,
    lemma_expanded_twice, lemma_interleaved, lemma_kept_sum, lemma_kept_through,
    lemma_kept_twice, lemma_picked_complement, lemma_picked_len, lemma_picked_prefix,
    lemma_picked_run, lemma_union_is_sum, lemma_zeros_bounds, lemma_zeros_expanded,
    lemma_zeros_kept_through, lemma_zeros_prefix, lemma_zeros_rank, lemma_zeros_sum_expanded,
    lemma_zeros_sum_through, picked, subset_complement, subset_counts, subset_is_empty,
    subset_transform_expand, subset_transform_shrink, subset_transform_union, subset_union, sum,
    zero_count, zeros,
};
use vstd::prelude::*;
use xi_rope::delta::{Delta, InsertDelta};
use xi_rope::multiset::Subset;

verus! {

/// The subset of the new document that the first `n` pieces insert: count 1
/// for every inserted byte and 0 for every copied one.
pub open spec fn insert_marks(pieces: Seq<Piece>, n: int) -> Seq<nat>
    decreases n,
{
    if n <= 0 {
        Seq::empty()
    } else {
        insert_marks(pieces, n - 1) + match pieces[n - 1] {
            Piece::Copy(start, end) => Seq::new((end - start) as nat, |i: int| 0nat),
            Piece::Insert(bytes) => Seq::new(bytes.len(), |i: int| 1nat),
        }
    }
}

/// The subset of the new document that the pieces insert.
pub open spec fn marks(pieces: Seq<Piece>) -> Seq<nat> {
    insert_marks(pieces, pieces.len() as int)
}

/// The number of bytes that the first `n` pieces insert.
pub open spec fn inserted_len(pieces: Seq<Piece>, n: int) -> int
    decreases n,
{
    if n <= 0 {
        0
    } else {
        inserted_len(pieces, n - 1) + match pieces[n - 1] {
            Piece::Copy(start, end) => 0,
            Piece::Insert(bytes) => bytes.len() as int,
        }
    }
}

/// What the pieces make of `base`.
pub open spec fn image(pieces: Seq<Piece>, base: Seq<u8>) -> Seq<u8> {
    pieces_image(pieces, base, pieces.len() as int)
}

/// The number of bytes of what the pieces make.
pub open spec fn total_len(pieces: Seq<Piece>) -> int {
    pieces_len(pieces, pieces.len() as int)
}

/// The pieces only insert: taking what they insert out of what they make of
/// a document gives the document back.
pub open spec fn only_inserts(pieces: Seq<Piece>, base_len: int, base: Seq<u8>) -> bool {
    base.len() == base_len ==> kept(marks(pieces), image(pieces, base)) == base
}

/// An edit is the same as its inserts followed by its deletions: what the
/// edit makes of a document is what is left of what the inserts make of it
/// when the deleted positions, seen among the inserted ones, are taken out.
pub open spec fn factor_law(
    edit: Seq<Piece>,
    inserts: Seq<Piece>,
    deletions: Seq<nat>,
    base: Seq<u8>,
) -> bool {
    base.len() == deletions.len() ==> image(edit, base) == kept(
        expanded(deletions, marks(inserts), false),
        image(inserts, base),
    )
}

/// What factoring the edit `edit` of a document of `base_len` bytes gives:
/// `inserts` fits that document, only inserts and inserts as many bytes as
/// the edit; `deletions` marks positions of that document, each at most
/// once; and the two together make what the edit makes.
pub open spec fn factored(
    edit: Seq<Piece>,
    base_len: int,
    inserts: Seq<Piece>,
    inserts_base_len: int,
    deletions: Seq<nat>,
) -> bool {
    &&& inserts_base_len == base_len
    &&& pieces_fit(inserts, base_len)
    &&& total_len(inserts) == base_len + inserted_len(edit, edit.len() as int)
    &&& deletions.len() == base_len
    &&& binary(deletions)
    &&& forall|base: Seq<u8>| #[trigger] only_inserts(inserts, base_len, base)
    &&& forall|base: Seq<u8>| #[trigger] factor_law(edit, inserts, deletions, base)
}

/// The edit `made` leads from the text without `from` to the text without
/// `to`, for every string `union` of which both are subsets and from which
/// `from` takes out exactly `tombstones`.
pub open spec fn synthesis_law(
    made: Seq<Piece>,
    from: Seq<nat>,
    to: Seq<nat>,
    tombstones: Seq<u8>,
    union: Seq<u8>,
) -> bool {
    union.len() == from.len() && dropped(from, union) == tombstones ==> image(
        made,
        kept(from, union),
    ) == kept(to, union)
}

/// An edit that only inserts, held as `xi_rope`'s insert delta.
#[verifier::external_body]
pub struct InsertOnly(InsertDelta<RopeInfo>);

/// The pieces of an insert delta, in order.
pub uninterp spec fn insert_only_pieces(inserts: InsertOnly) -> Seq<Piece>;

/// The length of the document that an insert delta was made for.
pub uninterp spec fn insert_only_base_len(inserts: InsertOnly) -> nat;

/// The pieces of the insert delta and the counts of the subset that
/// `Delta::factor` makes of an edit of a document of `base_len` bytes.
pub uninterp spec fn factoring(edit: Seq<Piece>, base_len: int) -> (Seq<Piece>, Seq<nat>);

/// The pieces of the insert delta that `InsertDelta::transform_expand`
/// makes of an insert delta and a subset.
pub uninterp spec fn expanded_inserts(inserts: Seq<Piece>, back: Seq<nat>, after: bool) -> Seq<Piece>;

/// `Delta::factor`: the edit as an insert delta and a subset of deletions.
/// The insert delta copies the whole document in order and inserts what
/// the edit inserts; the subset marks, once each, the bytes of the document
/// that the edit does not copy; and the inserts followed by the deletions
/// make what the edit makes.
#[verifier::external_body]
fn delta_factor(delta: RopeDelta) -> (r: (InsertOnly, Subset))
    requires
        delta.fits(delta.base_len() as int),
    ensures
        (insert_only_pieces(r.0), subset_counts(r.1)) == factoring(
            delta.pieces(),
            delta.base_len() as int,
        ),
        factored(
            delta.pieces(),
            delta.base_len() as int,
            insert_only_pieces(r.0),
            insert_only_base_len(r.0) as int,
            subset_counts(r.1),
        ),
{
    let (inserts, deletions) = delta.0.factor();
    (InsertOnly(inserts), deletions)
}

/// `InsertDelta::inserted_subset`: count 1 for every byte of the new
/// document that the delta inserts and 0 for every byte that it copies.
#[verifier::external_body]
fn insert_only_subset(inserts: &InsertOnly) -> (r: Subset)
    requires
        pieces_fit(insert_only_pieces(*inserts), insert_only_base_len(*inserts) as int),
        total_len(insert_only_pieces(*inserts)) <= usize::MAX,
    ensures
        subset_counts(r) == marks(insert_only_pieces(*inserts)),
{
    inserts.0.inserted_subset()
}

/// `Delta::apply`, on an insert delta: the bytes of the pieces, one after
/// the other, where each copied range is taken from `base`.
#[verifier::external_body]
fn insert_only_apply(inserts: &InsertOnly, base: &Rope) -> (r: Rope)
    requires
        insert_only_base_len(*inserts) == base@.len(),
        pieces_fit(insert_only_pieces(*inserts), base@.len() as int),
        total_len(insert_only_pieces(*inserts)) <= usize::MAX,
    ensures
        r@ == image(insert_only_pieces(*inserts), base@),
{
    Rope(inserts.0.apply(&base.0))
}

/// `InsertDelta::transform_expand`: the insert delta for the longer
/// document in which the positions of `xform` are back. It fits that
/// document and copies all of it in order. It inserts the bytes that
/// `inserts` inserts, piece by piece in the same order, and each of them
/// behind as many bytes of the shorter document as before: with the
/// positions of `xform` taken out of what it makes, its inserts stand
/// where those of `inserts` stand. (Where positions of `xform` lie at such
/// a place, `after` says on which side of them the insert goes.)
#[verifier::external_body]
fn insert_only_transform_expand(inserts: &InsertOnly, xform: &Subset, after: bool) -> (r:
    InsertOnly)
    requires
        pieces_fit(insert_only_pieces(*inserts), insert_only_base_len(*inserts) as int),
        insert_only_base_len(*inserts) == zero_count(subset_counts(*xform)),
        subset_counts(*xform).len() + total_len(insert_only_pieces(*inserts)) <= usize::MAX,
        forall|base: Seq<u8>| #[trigger]
            only_inserts(
                insert_only_pieces(*inserts),
                insert_only_base_len(*inserts) as int,
                base,
            ),
    ensures
        insert_only_pieces(r) == expanded_inserts(
            insert_only_pieces(*inserts),
            subset_counts(*xform),
            after,
        ),
        insert_only_base_len(r) == subset_counts(*xform).len(),
        widened(insert_only_pieces(*inserts), subset_counts(*xform), insert_only_pieces(r)),
{
    InsertOnly(inserts.0.transform_expand(xform, after))
}

/// `Delta::synthesize`: the edit that leads from the text without `from` to
/// the text without `to`, where both are subsets of one union string and
/// `tombstones` holds the bytes of that string which are in `from`.
#[verifier::external_body]
fn delta_synthesize(tombstones: &Rope, from: &Subset, to: &Subset) -> (r: RopeDelta)
    requires
        subset_counts(*from).len() == subset_counts(*to).len(),
        tombstones@.len() == subset_counts(*from).len() - zero_count(subset_counts(*from)),
        zero_count(subset_counts(*from)) <= MAX_DOCUMENT_LEN,
        zero_count(subset_counts(*to)) <= MAX_DOCUMENT_LEN,
    ensures
        r.fits(zero_count(subset_counts(*from))),
        r.new_len() == zero_count(subset_counts(*to)),
        forall|union: Seq<u8>| #[trigger]
            synthesis_law(
                r.pieces(),
                subset_counts(*from),
                subset_counts(*to),
                tombstones@,
                union,
            ),
{
    RopeDelta(Delta::synthesize(&tombstones.0, from, to))
}

/// The marks of the first `n` pieces are as many as the bytes that these
/// pieces make, each at most 1, and those that are not 0 are as many as the
/// bytes that the pieces insert.
pub proof fn lemma_marks(pieces: Seq<Piece>, base_len: int, n: int)
    requires
        pieces_fit(pieces, base_len),
        0 <= n <= pieces.len(),
    ensures
        insert_marks(pieces, n).len() == pieces_len(pieces, n),
        binary(insert_marks(pieces, n)),
        zeros(insert_marks(pieces, n), pieces_len(pieces, n)) == pieces_len(pieces, n)
            - inserted_len(pieces, n),
        0 <= inserted_len(pieces, n) <= pieces_len(pieces, n),
    decreases n,
{
    if n > 0 {
        lemma_marks(pieces, base_len, n - 1);
        assert(crate::delta::piece_fits(pieces[n - 1], base_len));
        let before = insert_marks(pieces, n - 1);
        let now = insert_marks(pieces, n);
        let added = now.len() - before.len();
        lemma_zeros_prefix(now, before, before.len() as int);
        lemma_zeros_run(now, before.len() as int, now.len() as int, pieces[n - 1] is Copy);
    }
}

/// A run of positions that all have count 0, or none of which has, adds
/// all of them, or none, to the positions with count 0.
pub proof fn lemma_zeros_run(counts: Seq<nat>, from: int, to: int, zero: bool)
    requires
        0 <= from <= to <= counts.len(),
        forall|i: int| from <= i < to ==> (#[trigger] counts[i] == 0) == zero,
    ensures
        zeros(counts, to) == zeros(counts, from) + if zero {
            to - from
        } else {
            0
        },
    decreases to - from,
{
    if from < to {
        lemma_zeros_run(counts, from, to - 1, zero);
    }
}

/// What follows from factoring: the marks of the inserts leave out exactly
/// the document, and the deletions seen among them leave out as many
/// positions as the edit makes bytes.
pub proof fn lemma_factored(
    edit: Seq<Piece>,
    base_len: int,
    inserts: Seq<Piece>,
    deletions: Seq<nat>,
)
    requires
        pieces_fit(edit, base_len),
        0 <= base_len,
        factored(edit, base_len, inserts, base_len, deletions),
    ensures
        marks(inserts).len() == total_len(inserts),
        binary(marks(inserts)),
        zero_count(marks(inserts)) == base_len,
        inserted_len(inserts, inserts.len() as int) == inserted_len(edit, edit.len() as int),
        0 <= inserted_len(edit, edit.len() as int) <= total_len(edit),
        expanded(deletions, marks(inserts), false).len() == total_len(inserts),
        binary(expanded(deletions, marks(inserts), false)),
        zero_count(expanded(deletions, marks(inserts), false)) == total_len(edit),
        total_len(edit) == inserted_len(edit, edit.len() as int) + zero_count(deletions),
{
    let m = marks(inserts);
    lemma_marks(inserts, base_len, inserts.len() as int);
    lemma_marks(edit, base_len, edit.len() as int);
    let base = Seq::new(base_len as nat, |i: int| 0u8);
    assert(only_inserts(inserts, base_len, base));
    assert(factor_law(edit, inserts, deletions, base));
    let u = image(inserts, base);
    lemma_image_len(inserts, base, inserts.len() as int);
    lemma_image_len(edit, base, edit.len() as int);
    lemma_picked_len(m, u, m.len() as int);
    lemma_expanded_binary(deletions, m, false);
    let e = expanded(deletions, m, false);
    lemma_picked_len(e, u, e.len() as int);
    lemma_zeros_expanded(deletions, m, m.len() as int);
}

/// An edit that can be reversed.
#[derive(Clone)]
pub struct Action {
    pub delta: RopeDelta,
}

impl Action {
    pub fn from_delta(delta: RopeDelta) -> (r: Action)
        ensures
            r.delta == delta,
    {
        Action { delta }
    }

    /// The edit that takes back this one, made on `base_rope`: applied to
    /// what this edit makes of `base_rope`, it gives `base_rope` again.
    pub fn invert(&self, base_rope: &Rope) -> (r: Action)
        requires
            self.delta.fits(base_rope@.len() as int),
        ensures
            r.delta.fits(self.delta.new_len()),
            r.delta.new_len() == base_rope@.len(),
            r.delta.image(self.delta.image(base_rope@)) == base_rope@,
    {
        let ghost edit = self.delta.pieces();
        let ghost base = base_rope@;
        let (inserts, deletions) = delta_factor(self.delta.clone());
        let ghost ip = insert_only_pieces(inserts);
        let ghost d = subset_counts(deletions);
        let ghost m = marks(ip);
        let ghost u = image(ip, base);
        let ghost e = expanded(d, m, false);
        proof {
            lemma_factored(edit, base.len() as int, ip, d);
            assert(only_inserts(ip, base.len() as int, base));
            assert(factor_law(edit, ip, d, base));
            lemma_image_len(ip, base, ip.len() as int);
            lemma_image_len(edit, base, edit.len() as int);
            lemma_picked_len(d, base, d.len() as int);
            lemma_picked_complement(d, base, d.len() as int);
            lemma_zeros_bounds(d, 0, d.len() as int);
            lemma_dropped_expanded(d, m, u, m.len() as int);
        }
        let ins_subset = insert_only_subset(&inserts);
        let deleted_now = base_rope.without_subset(&subset_complement(&deletions));
        let deletions_from_base = subset_transform_expand(&deletions, &ins_subset);
        let deletions_from_inverted = ins_subset;
        let inverse = delta_synthesize(&deleted_now, &deletions_from_base, &deletions_from_inverted);
        proof {
            assert(synthesis_law(inverse.pieces(), e, m, deleted_now@, u));
            assert(dropped(e, u) == deleted_now@);
        }
        Action { delta: inverse }
    }

    /// The subsets from which the composition of this edit and `next`, an
    /// edit of what this one makes, is put together: what the two insert
    /// and what they delete, as subsets of the string that holds every byte
    /// of the first document and of both inserts, and what the two insert as
    /// a subset of what `next` makes before it deletes.
    pub fn subsets_for_chain(self, next: RopeDelta) -> (r: (Subset, Subset, Subset))
        requires
            self.delta.fits(self.delta.base_len() as int),
            next.fits(self.delta.new_len()),
        ensures
            (subset_counts(r.0), subset_counts(r.1), subset_counts(r.2)) == chain_subsets(
                self.delta.pieces(),
                self.delta.base_len() as int,
                next.pieces(),
                next.base_len() as int,
            ),
            chain_parts_ok(
                self.delta.pieces(),
                self.delta.base_len() as int,
                next.pieces(),
                next.base_len() as int,
            ),
            subset_counts(r.0).len() == subset_counts(r.1).len(),
            subset_counts(r.0).len() - zero_count(subset_counts(r.0)) == subset_counts(r.2).len()
                - zero_count(subset_counts(r.2)),
            zero_count(subset_counts(r.0)) == self.delta.base_len(),
            zero_count(subset_counts(r.1)) == next.new_len(),
            subset_counts(r.2).len() == next.base_len() + inserted_len(
                next.pieces(),
                next.pieces().len() as int,
            ),
    {
        let ghost e1 = self.delta.pieces();
        let ghost e2 = next.pieces();
        let ghost a_len = self.delta.base_len() as int;
        let ghost b_len = next.base_len() as int;
        let (ins1, del1) = delta_factor(self.delta);
        let (ins2, del2) = delta_factor(next);
        let ghost ip1 = insert_only_pieces(ins1);
        let ghost ip2 = insert_only_pieces(ins2);
        let ghost d1 = subset_counts(del1);
        let ghost d2 = subset_counts(del2);
        let ghost m1 = marks(ip1);
        let ghost m2 = marks(ip2);
        proof {
            lemma_factored(e1, a_len, ip1, d1);
            lemma_factored(e2, b_len, ip2, d2);
            lemma_marks(ip2, b_len, ip2.len() as int);
        }
        let inserts_in_mid_union = insert_only_subset(&ins1);
        let deletes_from_mid_union = subset_transform_expand(&del1, &inserts_in_mid_union);
        let ghost x1 = subset_counts(deletes_from_mid_union);

        let union_ins_delta = insert_only_transform_expand(&ins2, &deletes_from_mid_union, true);
        let ghost ipu = insert_only_pieces(union_ins_delta);
        let ghost mu = marks(ipu);
        proof {
            lemma_marks(ipu, x1.len() as int, ipu.len() as int);
            let base = Seq::new(x1.len(), |i: int| 0u8);
            assert(only_inserts(ipu, x1.len() as int, base));
            lemma_image_len(ipu, base, ipu.len() as int);
            lemma_picked_len(mu, image(ipu, base), mu.len() as int);
        }
        let new_inserts = insert_only_subset(&union_ins_delta);
        let pre_expand = subset_transform_expand(&del2, &deletes_from_mid_union);
        let ghost pre = subset_counts(pre_expand);
        proof {
            lemma_expanded_binary(d2, x1, false);
        }
        let new_deletes = if subset_is_empty(&new_inserts) {
            proof {
                lemma_expanded_through_none(pre, mu);
            }
            pre_expand
        } else {
            subset_transform_expand(&pre_expand, &new_inserts)
        };
        assert(subset_counts(new_deletes) == expanded(pre, mu, false));
        let rebased_deletes_from_union = subset_transform_expand(
            &deletes_from_mid_union,
            &new_inserts,
        );
        proof {
            lemma_expanded_binary(pre, mu, false);
            lemma_expanded_binary(x1, mu, false);
            lemma_expanded_binary(m1, mu, false);
        }
        let deletes_from_union = subset_union(&rebased_deletes_from_union, &new_deletes);

        let rebased_inserts_in_union = subset_transform_expand(&inserts_in_mid_union, &new_inserts);
        let inserts_in_union = subset_union(&rebased_inserts_in_union, &new_inserts);

        let inserts_in_mid_text = subset_transform_shrink(
            &inserts_in_mid_union,
            &deletes_from_mid_union,
        );
        let ghost mid = subset_counts(inserts_in_mid_text);
        proof {
            lemma_picked_len(x1, m1, x1.len() as int);
        }
        let prefinal_insertion = insert_only_subset(&ins2);
        let inserts_in_prefinal = subset_transform_union(&inserts_in_mid_text, &prefinal_insertion);
        proof {
            lemma_chain_counts(d1, m1, d2, m2, mu);
        }
        (inserts_in_union, deletes_from_union, inserts_in_prefinal)
    }

    /// The composition of this edit and `next`, an edit of `after_self`,
    /// which is what this edit makes: applied to a document of which this
    /// edit makes `after_self`, it gives what `next` makes of `after_self`.
    pub fn chain(self, after_self: &Rope, next: RopeDelta) -> (r: Action)
        requires
            self.delta.fits(self.delta.base_len() as int),
            after_self@.len() == self.delta.new_len(),
            next.fits(after_self@.len() as int),
        ensures
            r.delta.fits(self.delta.base_len() as int),
            r.delta.new_len() == next.new_len(),
            forall|base: Seq<u8>|
                base.len() == self.delta.base_len() && #[trigger] self.delta.image(base)
                    == after_self@ ==> r.delta.image(base) == next.image(after_self@),
    {
        let ghost first = self.delta;
        let ghost e1 = self.delta.pieces();
        let ghost a_len = self.delta.base_len() as int;
        let ghost e2 = next.pieces();
        let (prefinal, prefinal_deletions) = delta_factor(next.clone());
        proof {
            lemma_factored(
                e2,
                next.base_len() as int,
                insert_only_pieces(prefinal),
                subset_counts(prefinal_deletions),
            );
        }
        let after_next = insert_only_apply(&prefinal, after_self);
        proof {
            lemma_image_len(
                insert_only_pieces(prefinal),
                after_self@,
                insert_only_pieces(prefinal).len() as int,
            );
        }
        let (inserted, deleted, inserts_in_prefinal) = self.subsets_for_chain(next);
        let kept_out = subset_complement(&inserts_in_prefinal);
        let tombstones = after_next.without_subset(&kept_out);
        proof {
            let c = subset_counts(inserts_in_prefinal);
            lemma_picked_complement(c, after_next@, c.len() as int);
            lemma_picked_len(c, after_next@, c.len() as int);
        }
        let made = delta_synthesize(&tombstones, &inserted, &deleted);
        proof {
            let parts = chain_parts(e1, a_len, e2, next.base_len() as int);
            assert forall|base: Seq<u8>|
                base.len() == a_len && #[trigger] first.image(base)
                    == after_self@ implies made.image(base) == image(e2, after_self@) by {
                lemma_chain(
                    e1,
                    parts.0.0,
                    parts.0.1,
                    e2,
                    parts.1.0,
                    parts.1.1,
                    parts.2,
                    made.pieces(),
                    base,
                    tombstones@,
                );
            }
        }
        Action { delta: made }
    }
}

/// The bytes that the first `n` pieces insert, one after the other.
pub open spec fn inserted_bytes(pieces: Seq<Piece>, n: int) -> Seq<u8>
    decreases n,
{
    if n <= 0 {
        Seq::empty()
    } else {
        inserted_bytes(pieces, n - 1) + match pieces[n - 1] {
            Piece::Copy(start, end) => Seq::empty(),
            Piece::Insert(bytes) => bytes,
        }
    }
}

/// The bytes that the pieces insert.
pub open spec fn inserts_of(pieces: Seq<Piece>) -> Seq<u8> {
    inserted_bytes(pieces, pieces.len() as int)
}

/// The insert-only edit `wide` is the insert-only edit `inserts` for a
/// longer document, in which the positions of `back` are back: it fits
/// that document and copies all of it in order; it inserts the same bytes;
/// and with the positions of `back` taken out again, its inserts stand
/// where those of `inserts` stand.
pub open spec fn widened(inserts: Seq<Piece>, back: Seq<nat>, wide: Seq<Piece>) -> bool {
    &&& pieces_fit(wide, back.len() as int)
    &&& total_len(wide) == back.len() + total_len(inserts) - zero_count(back)
    &&& forall|base: Seq<u8>| #[trigger] only_inserts(wide, back.len() as int, base)
    &&& inserts_of(wide) == inserts_of(inserts)
    &&& kept(expanded(back, marks(wide), false), marks(wide)) == marks(inserts)
}

/// The subsets from which the composition of two edits is put together.
/// `d1` and `m1` are the deletions and the insert marks of the first edit,
/// `d2` and `m2` those of the second, and `mu` marks the inserts of the
/// second in the string that holds every byte of the first document and
/// of both inserts. The subsets are: what the two insert, and what they
/// delete, as subsets of that string; and what the two insert, as a subset
/// of what the second edit makes before it deletes.
pub open spec fn composed(d1: Seq<nat>, m1: Seq<nat>, d2: Seq<nat>, m2: Seq<nat>, mu: Seq<nat>) -> (
    Seq<nat>,
    Seq<nat>,
    Seq<nat>,
) {
    let x1 = expanded(d1, m1, false);
    (
        sum(expanded(m1, mu, false), mu),
        sum(expanded(x1, mu, false), expanded(expanded(d2, x1, false), mu, false)),
        expanded(kept(x1, m1), m2, true),
    )
}

/// The parts that composing rests on, as `xi_rope` makes them of an edit
/// `e1` of a document of `a_len` bytes and an edit `e2` of what `e1`
/// makes, a document of `b_len` bytes: the inserts and the deletions of
/// each, and the inserts of `e2` for the string that holds the first
/// document and the inserts of `e1`.
pub open spec fn chain_parts(e1: Seq<Piece>, a_len: int, e2: Seq<Piece>, b_len: int) -> (
    (Seq<Piece>, Seq<nat>),
    (Seq<Piece>, Seq<nat>),
    Seq<Piece>,
) {
    let first = factoring(e1, a_len);
    let second = factoring(e2, b_len);
    (
        first,
        second,
        expanded_inserts(second.0, expanded(first.1, marks(first.0), false), true),
    )
}

/// The parts are what factoring and widening promise of them.
pub open spec fn chain_parts_ok(e1: Seq<Piece>, a_len: int, e2: Seq<Piece>, b_len: int) -> bool {
    let parts = chain_parts(e1, a_len, e2, b_len);
    &&& factored(e1, a_len, parts.0.0, a_len, parts.0.1)
    &&& factored(e2, b_len, parts.1.0, b_len, parts.1.1)
    &&& widened(parts.1.0, expanded(parts.0.1, marks(parts.0.0), false), parts.2)
}

/// The subsets from which the composition of `e1` and `e2` is put
/// together.
pub open spec fn chain_subsets(e1: Seq<Piece>, a_len: int, e2: Seq<Piece>, b_len: int) -> (
    Seq<nat>,
    Seq<nat>,
    Seq<nat>,
) {
    let parts = chain_parts(e1, a_len, e2, b_len);
    composed(parts.0.1, marks(parts.0.0), parts.1.1, marks(parts.1.0), marks(parts.2))
}

/// What the marks of the inserts take out of what the pieces make is what
/// the pieces insert.
pub proof fn lemma_dropped_marks(pieces: Seq<Piece>, base: Seq<u8>, n: int)
    requires
        pieces_fit(pieces, base.len() as int),
        0 <= n <= pieces.len(),
    ensures
        picked(
            insert_marks(pieces, n),
            pieces_image(pieces, base, n),
            pieces_len(pieces, n),
            false,
        ) == inserted_bytes(pieces, n),
    decreases n,
{
    if n > 0 {
        lemma_dropped_marks(pieces, base, n - 1);
        lemma_marks(pieces, base.len() as int, n - 1);
        lemma_marks(pieces, base.len() as int, n);
        lemma_image_len(pieces, base, n - 1);
        lemma_image_len(pieces, base, n);
        assert(crate::delta::piece_fits(pieces[n - 1], base.len() as int));
        let before_m = insert_marks(pieces, n - 1);
        let now_m = insert_marks(pieces, n);
        let before_s = pieces_image(pieces, base, n - 1);
        let now_s = pieces_image(pieces, base, n);
        let from = pieces_len(pieces, n - 1);
        let to = pieces_len(pieces, n);
        lemma_picked_prefix(now_m, now_s, before_m, before_s, from, false);
        lemma_picked_run(now_m, now_s, from, to, pieces[n - 1] is Copy);
        assert(now_s.subrange(from, to) =~= piece_image(pieces[n - 1], base));
        assert(inserted_bytes(pieces, n - 1) + Seq::<u8>::empty() =~= inserted_bytes(
            pieces,
            n - 1,
        ));
    }
}

/// The composition of two edits. `e1` is an edit of `base` and `e2` one of
/// what `e1` makes of it; each is factored into inserts and deletions, and
/// `ipu` is the inserts of `e2` for the string that holds `base` and the
/// inserts of `e1`. The edit `made`, put together from the subsets that
/// these compose to and from the inserted bytes, makes of `base` what `e2`
/// makes of what `e1` makes of it.
pub proof fn lemma_chain(
    e1: Seq<Piece>,
    ip1: Seq<Piece>,
    d1: Seq<nat>,
    e2: Seq<Piece>,
    ip2: Seq<Piece>,
    d2: Seq<nat>,
    ipu: Seq<Piece>,
    made: Seq<Piece>,
    base: Seq<u8>,
    tombstones: Seq<u8>,
)
    requires
        pieces_fit(e1, base.len() as int),
        pieces_fit(e2, total_len(e1)),
        factored(e1, base.len() as int, ip1, base.len() as int, d1),
        factored(e2, total_len(e1), ip2, total_len(e1), d2),
        widened(ip2, expanded(d1, marks(ip1), false), ipu),
        tombstones == dropped(
            composed(d1, marks(ip1), d2, marks(ip2), marks(ipu)).2,
            image(ip2, image(e1, base)),
        ),
        forall|union: Seq<u8>| #[trigger]
            synthesis_law(
                made,
                composed(d1, marks(ip1), d2, marks(ip2), marks(ipu)).0,
                composed(d1, marks(ip1), d2, marks(ip2), marks(ipu)).1,
                tombstones,
                union,
            ),
    ensures
        image(made, base) == image(e2, image(e1, base)),
{
    let a = base.len() as int;
    let b = total_len(e1);
    let m1 = marks(ip1);
    let m2 = marks(ip2);
    let mu = marks(ipu);
    let x1 = expanded(d1, m1, false);
    let u1 = image(ip1, base);
    let mid = image(e1, base);
    let p = image(ip2, mid);
    let w = image(ipu, u1);
    let n = mu.len() as int;
    let through = expanded(x1, mu, false);
    let y2 = expanded(d2, m2, false);
    let all = composed(d1, m1, d2, m2, mu);
    let s = kept(through, w);

    lemma_factored(e1, a, ip1, d1);
    lemma_image_len(e1, base, e1.len() as int);
    lemma_factored(e2, b, ip2, d2);
    lemma_image_len(ip1, base, ip1.len() as int);
    lemma_image_len(ip2, mid, ip2.len() as int);
    lemma_marks(ipu, x1.len() as int, ipu.len() as int);
    lemma_image_len(ipu, u1, ipu.len() as int);
    assert(only_inserts(ip1, a, base));
    assert(factor_law(e1, ip1, d1, base));
    assert(only_inserts(ip2, b, mid));
    assert(factor_law(e2, ip2, d2, mid));
    assert(only_inserts(ipu, x1.len() as int, u1));
    lemma_picked_len(mu, w, n);
    assert(zero_count(mu) == x1.len());
    lemma_dropped_marks(ipu, u1, ipu.len() as int);
    lemma_dropped_marks(ip2, mid, ip2.len() as int);
    lemma_picked_len(through, mu, n);
    lemma_picked_len(through, w, n);
    assert(m2.len() == zeros(through, n));

    // What the first deletions leave of the string with everything in it
    // is what the second edit makes before it deletes.
    assert(s == p) by {
        lemma_kept_twice(through, mu, w, n);
        lemma_union_is_sum(x1, mu);
        lemma_kept_through(x1, mu, w, n);
        lemma_dropped_apart(through, mu, w, n);
        lemma_interleaved(m2, s, p, m2.len() as int);
        assert(s =~= p);
    }

    // What all deletions leave of that string is what the second edit
    // makes.
    assert(kept(all.1, w) == image(e2, mid)) by {
        lemma_expanded_twice(d2, x1, mu);
        lemma_union_is_sum(y2, through);
        assert(all.1 =~= expanded(y2, through, true));
        lemma_kept_through(y2, through, w, n);
    }

    // What all inserts leave of it is the first document.
    assert(kept(all.0, w) == base) by {
        lemma_union_is_sum(m1, mu);
        lemma_kept_through(m1, mu, w, n);
    }

    // What all inserts take out of it is what they take out of what the
    // second edit makes before it deletes.
    assert(dropped(all.0, w) == tombstones) by {
        assert forall|i: int| 0 <= i < n && through[i] > 0 implies #[trigger] all.0[i] == 0 by {
            lemma_zeros_rank(mu, i, n);
        }
        lemma_dropped_apart(through, all.0, w, n);
        lemma_kept_sum(through, expanded(m1, mu, false), mu, n);
        lemma_expanded_shrunk(m1, x1, mu);
        lemma_union_is_sum(kept(x1, m1), m2);
        lemma_picked_len(through, all.0, n);
        assert(kept(through, all.0) =~= all.2);
    }
    assert(synthesis_law(made, all.0, all.1, tombstones, w));
}

/// The counts on which composing two edits rests. `d1` and `m1` are the
/// deletions and the insert marks of the first edit, `d2` and `m2` those of
/// the second, and `mu` marks the inserts of the second in the string that
/// holds every byte of the first document and of both inserts.
pub proof fn lemma_chain_counts(
    d1: Seq<nat>,
    m1: Seq<nat>,
    d2: Seq<nat>,
    m2: Seq<nat>,
    mu: Seq<nat>,
)
    requires
        d1.len() == zero_count(m1),
        d2.len() == zero_count(expanded(d1, m1, false)),
        d2.len() == zero_count(m2),
        m1.len() == zero_count(mu),
        mu.len() - zero_count(mu) == m2.len() - zero_count(m2),
    ensures
        ({
            let x1 = expanded(d1, m1, false);
            let pre = expanded(d2, x1, false);
            let inserts_in_union = sum(expanded(m1, mu, false), mu);
            let deletes_from_union = sum(expanded(x1, mu, false), expanded(pre, mu, false));
            let inserts_in_prefinal = expanded(kept(x1, m1), m2, true);
            &&& inserts_in_union.len() == deletes_from_union.len()
            &&& inserts_in_union.len() - zero_count(inserts_in_union) == inserts_in_prefinal.len()
                - zero_count(inserts_in_prefinal)
            &&& zero_count(inserts_in_union) == zero_count(m1)
            &&& zero_count(deletes_from_union) == (m2.len() - zero_count(m2)) + zero_count(d2)
            &&& inserts_in_prefinal.len() == m2.len()
        }),
{
    let x1 = expanded(d1, m1, false);
    let pre = expanded(d2, x1, false);
    let n1 = m1.len() as int;
    let nu = mu.len() as int;
    let n2 = m2.len() as int;
    let through = sum(mu, expanded(m1, mu, false));
    let inserts_in_union = sum(expanded(m1, mu, false), mu);
    let deletes_from_union = sum(expanded(x1, mu, false), expanded(pre, mu, false));
    let mid = kept(x1, m1);
    let inserts_in_prefinal = expanded(mid, m2, true);
    lemma_zeros_bounds(mu, 0, nu);
    lemma_zeros_bounds(m1, 0, n1);
    lemma_zeros_bounds(m2, 0, n2);
    // The inserts in the union leave what the first inserts leave.
    lemma_zeros_sum_through(m1, mu, nu);
    assert(through =~= inserts_in_union);
    // The deletions from the union leave the second inserts and what the
    // second deletions leave.
    lemma_zeros_sum_expanded(x1, pre, mu, nu);
    lemma_zeros_sum_through(d2, x1, n1);
    lemma_zeros_prefix(sum(x1, pre), sum(x1, expanded(d2, x1, false)), n1);
    // The inserts before the last deletions leave what the first deletions
    // leave of the first document.
    lemma_zeros_expanded(mid, m2, n2);
    lemma_zeros_kept_through(d1, m1, n1);
    lemma_picked_len(x1, m1, n1);
    lemma_zeros_expanded(d1, m1, n1);
}

/// The state that an entry of the history leads back to.
pub struct Snapshot {
    pub data: Seq<u8>,
    pub selection: SelectionView,
}

/// What a history holds, seen from the current document: the states that
/// undoing and redoing lead to, the next one last, and the state at which
/// the current run of incomplete edits began, if one is under way.
pub struct HistoryView {
    pub undo: Seq<Snapshot>,
    pub redo: Seq<Snapshot>,
    pub partial: Option<Snapshot>,
}

/// The first `n` entries of a stack can be applied one after the other,
/// the last of them first, starting from a document of `len` bytes, and
/// each selection lies inside the document that its entry makes.
pub open spec fn stack_ok(entries: Seq<(Action, Selection)>, len: int, n: int) -> bool
    decreases n,
{
    if n <= 0 {
        true
    } else {
        let e = entries[n - 1];
        &&& e.0.delta.fits(len)
        &&& e.1.wf()
        &&& e.1@.bounded(e.0.delta.new_len())
        &&& stack_ok(entries, e.0.delta.new_len(), n - 1)
    }
}

/// The states that the first `n` entries of a stack lead to, starting from
/// `current`: the last entry leads to what its edit makes of `current`, the
/// one before it to what its edit makes of that, and so on.
pub open spec fn stack_view(entries: Seq<(Action, Selection)>, current: Seq<u8>, n: int) -> Seq<
    Snapshot,
>
    decreases n,
{
    if n <= 0 {
        Seq::empty()
    } else {
        let e = entries[n - 1];
        let target = e.0.delta.image(current);
        stack_view(entries, target, n - 1).push(Snapshot { data: target, selection: e.1@ })
    }
}

/// What is said of the first `n` entries of a stack depends on those
/// entries only.
pub proof fn lemma_stack_prefix(
    a: Seq<(Action, Selection)>,
    b: Seq<(Action, Selection)>,
    current: Seq<u8>,
    n: int,
)
    requires
        0 <= n <= a.len(),
        n <= b.len(),
        forall|i: int| 0 <= i < n ==> a[i] == b[i],
    ensures
        stack_ok(a, current.len() as int, n) == stack_ok(b, current.len() as int, n),
        stack_view(a, current, n) == stack_view(b, current, n),
        stack_view(a, current, n).len() == n,
    decreases n,
{
    if n > 0 {
        let e = a[n - 1];
        let target = e.0.delta.image(current);
        lemma_stack_prefix(a, b, target, n - 1);
        if e.0.delta.fits(current.len() as int) {
            lemma_image_len(e.0.delta.pieces(), current, e.0.delta.pieces().len() as int);
        } else {
            assert(!stack_ok(a, current.len() as int, n));
            assert(!stack_ok(b, current.len() as int, n));
        }
    }
}

/// Whether the first `n` entries of a stack can be applied depends on
/// those entries only.
pub proof fn lemma_stack_ok_prefix(
    a: Seq<(Action, Selection)>,
    b: Seq<(Action, Selection)>,
    len: int,
    n: int,
)
    requires
        0 <= n <= a.len(),
        n <= b.len(),
        forall|i: int| 0 <= i < n ==> a[i] == b[i],
    ensures
        stack_ok(a, len, n) == stack_ok(b, len, n),
    decreases n,
{
    if n > 0 {
        lemma_stack_ok_prefix(a, b, a[n - 1].0.delta.new_len(), n - 1);
    }
}

/// The edits that were made, each reversed, for undoing and redoing them.
pub struct History {
    partial: Option<(Action, Selection)>,
    undo: Vec<(Action, Selection)>,
    redo: Vec<(Action, Selection)>,
}

impl History {
    /// The document that the stacks start from: the current one, or the
    /// one at which the run of incomplete edits began.
    pub closed spec fn base_len(&self, len: int) -> int {
        match self.partial {
            None => len,
            Some(p) => p.0.delta.new_len(),
        }
    }

    /// The history fits a current document of `len` bytes: the incomplete
    /// run, if any, can be taken back from it, and from where that leads
    /// the undo and the redo stack can be applied.
    pub closed spec fn wf(&self, len: int) -> bool {
        &&& 0 <= len <= MAX_DOCUMENT_LEN
        &&& match self.partial {
            None => true,
            Some(p) => p.0.delta.fits(len) && p.1.wf() && p.1@.bounded(p.0.delta.new_len()),
        }
        &&& stack_ok(self.undo@, self.base_len(len), self.undo@.len() as int)
        &&& stack_ok(self.redo@, self.base_len(len), self.redo@.len() as int)
    }

    /// What the history holds, seen from the document `current`.
    pub closed spec fn view_at(&self, current: Seq<u8>) -> HistoryView {
        let base = match self.partial {
            None => current,
            Some(p) => p.0.delta.image(current),
        };
        HistoryView {
            undo: stack_view(self.undo@, base, self.undo@.len() as int),
            redo: stack_view(self.redo@, base, self.redo@.len() as int),
            partial: match self.partial {
                None => None,
                Some(p) => Some(Snapshot { data: base, selection: p.1@ }),
            },
        }
    }

    /// Whether a run of incomplete edits is under way.
    pub closed spec fn has_partial(&self) -> bool {
        self.partial is Some
    }

    /// The number of edits that can be undone, and of those that can be
    /// redone.
    pub closed spec fn depths(&self) -> (int, int) {
        (self.undo@.len() as int, self.redo@.len() as int)
    }

    /// Some facts that hold of every well-formed history.
    pub proof fn lemma_view(&self, current: Seq<u8>)
        requires
            self.wf(current.len() as int),
        ensures
            self.view_at(current).undo.len() == self.depths().0,
            self.view_at(current).redo.len() == self.depths().1,
            self.view_at(current).partial is Some == self.has_partial(),
            current.len() <= MAX_DOCUMENT_LEN,
    {
        let base = match self.partial {
            None => current,
            Some(p) => p.0.delta.image(current),
        };
        lemma_stack_prefix(self.undo@, self.undo@, base, self.undo@.len() as int);
        lemma_stack_prefix(self.redo@, self.redo@, base, self.redo@.len() as int);
    }

    /// Whether a run of incomplete edits is under way.
    pub fn is_partial(&self) -> (r: bool)
        ensures
            r == self.has_partial(),
    {
        self.partial.is_some()
    }

    /// A history without entries.
    pub fn new() -> (r: History)
        ensures
            forall|len: int| 0 <= len <= MAX_DOCUMENT_LEN ==> #[trigger] r.wf(len),
            forall|current: Seq<u8>| #[trigger]
                r.view_at(current) == (HistoryView {
                    undo: Seq::empty(),
                    redo: Seq::empty(),
                    partial: None,
                }),
            !r.has_partial(),
    {
        History { partial: None, undo: Vec::new(), redo: Vec::new() }
    }

    /// Records the edit `delta` of `current_rope`, made with `selection`,
    /// as one step to undo. What could be redone is forgotten.
    pub fn perform_final(&mut self, current_rope: &Rope, delta: RopeDelta, selection: Selection)
        requires
            old(self).wf(current_rope@.len() as int),
            !old(self).has_partial(),
            delta.fits(current_rope@.len() as int),
            selection.wf(),
            selection@.bounded(current_rope@.len() as int),
        ensures
            final(self).wf(delta.new_len()),
            !final(self).has_partial(),
            final(self).view_at(delta.image(current_rope@)) == (HistoryView {
                undo: old(self).view_at(current_rope@).undo.push(
                    Snapshot { data: current_rope@, selection: selection@ },
                ),
                redo: Seq::empty(),
                partial: None,
            }),
    {
        let ghost before = self.undo@;
        let ghost sel = selection@;
        let inverse = Action::from_delta(delta).invert(current_rope);
        self.undo.push((inverse, selection));
        self.redo = Vec::new();
        proof {
            let n = before.len() as int;
            lemma_stack_prefix(self.undo@, before, current_rope@, n);
            lemma_image_len(delta.pieces(), current_rope@, delta.pieces().len() as int);
        }
    }

    /// Records the edit `delta` of `current_rope` as part of a run of
    /// incomplete edits. The first edit of a run is kept reversed, with the
    /// selection at that time; a later one is composed with what is kept,
    /// so that the run still leads back to the state at which it began.
    pub fn perform_partial(&mut self, current_rope: &Rope, delta: RopeDelta, selection: &Selection)
        requires
            old(self).wf(current_rope@.len() as int),
            delta.fits(current_rope@.len() as int),
            selection.wf(),
            selection@.bounded(current_rope@.len() as int),
        ensures
            final(self).wf(delta.new_len()),
            final(self).has_partial(),
            final(self).depths() == old(self).depths(),
            final(self).view_at(delta.image(current_rope@)) == (HistoryView {
                undo: old(self).view_at(current_rope@).undo,
                redo: old(self).view_at(current_rope@).redo,
                partial: Some(
                    match old(self).view_at(current_rope@).partial {
                        Some(began) => began,
                        None => Snapshot { data: current_rope@, selection: selection@ },
                    },
                ),
            }),
    {
        proof {
            lemma_image_len(delta.pieces(), current_rope@, delta.pieces().len() as int);
        }
        let this_inversion = Action::from_delta(delta).invert(current_rope);
        let kept_partial = self.partial.take();
        let replaced = match kept_partial {
            None => (this_inversion, selection.clone()),
            Some((action, first_selection)) => {
                proof {
                    lemma_image_len(
                        action.delta.pieces(),
                        current_rope@,
                        action.delta.pieces().len() as int,
                    );
                }
                let chained = this_inversion.chain(current_rope, action.delta);
                proof {
                    lemma_image_len(
                        chained.delta.pieces(),
                        delta.image(current_rope@),
                        chained.delta.pieces().len() as int,
                    );
                }
                (chained, first_selection)
            },
        };
        self.partial = Some(replaced);
    }

    /// Ends the run of incomplete edits, if one is under way: what was kept
    /// of it becomes one step to undo, and what could be redone is
    /// forgotten.
    pub fn commit_partial(&mut self)
        ensures
            !final(self).has_partial(),
            forall|len: int| old(self).wf(len) ==> #[trigger] final(self).wf(len),
            !old(self).has_partial() ==> *final(self) == *old(self),
            forall|current: Seq<u8>|
                old(self).has_partial() ==> #[trigger] final(self).view_at(current) == (
                HistoryView {
                    undo: old(self).view_at(current).undo.push(
                        old(self).view_at(current).partial.unwrap(),
                    ),
                    redo: Seq::empty(),
                    partial: None,
                }),
    {
        let ghost before = self.undo@;
        let kept_partial = self.partial.take();
        match kept_partial {
            Some((partial, selection)) => {
                self.undo.push((partial, selection));
                self.redo = Vec::new();
                proof {
                    let n = before.len() as int;
                    assert forall|current: Seq<u8>| #[trigger]
                        final(self).view_at(current) == (HistoryView {
                            undo: old(self).view_at(current).undo.push(
                                old(self).view_at(current).partial.unwrap(),
                            ),
                            redo: Seq::empty(),
                            partial: None,
                        }) by {
                        let base = partial.delta.image(current);
                        lemma_stack_prefix(self.undo@, before, base, n);
                    }
                    assert forall|len: int| old(self).wf(len) implies #[trigger] final(self).wf(
                        len,
                    ) by {
                        lemma_stack_ok_prefix(self.undo@, before, partial.delta.new_len(), n);
                    }
                }
            },
            None => {},
        }
    }

    /// Takes the edit that undoes the last step off the undo stack and puts
    /// the edit that redoes it, with `selection`, on the redo stack. Gives
    /// the edit to apply to `current_rope` and the selection to restore, or
    /// `None` if there is nothing to undo.
    pub fn undo(&mut self, current_rope: &Rope, selection: Selection) -> (r: Option<
        (RopeDelta, Selection),
    >)
        requires
            old(self).wf(current_rope@.len() as int),
            !old(self).has_partial(),
            selection.wf(),
            selection@.bounded(current_rope@.len() as int),
        ensures
            !final(self).has_partial(),
            r is None == (old(self).view_at(current_rope@).undo.len() == 0),
            r is None ==> final(self).wf(current_rope@.len() as int) && final(self).view_at(
                current_rope@,
            ) == old(self).view_at(current_rope@),
            r matches Some((delta, restored)) ==> {
                &&& delta.fits(current_rope@.len() as int)
                &&& restored.wf()
                &&& restored@.bounded(delta.new_len())
                &&& (Snapshot { data: delta.image(current_rope@), selection: restored@ }) == old(self).view_at(current_rope@).undo.last()
                &&& final(self).wf(delta.new_len())
                &&& final(self).view_at(delta.image(current_rope@)) == (HistoryView {
                    undo: old(self).view_at(current_rope@).undo.drop_last(),
                    redo: old(self).view_at(current_rope@).redo.push(
                        Snapshot { data: current_rope@, selection: selection@ },
                    ),
                    partial: None,
                })
            },
    {
        let ghost undo_before = self.undo@;
        let ghost redo_before = self.redo@;
        proof {
            lemma_stack_prefix(undo_before, undo_before, current_rope@, undo_before.len() as int);
        }
        match self.undo.pop() {
            Some((action, old_selection)) => {
                let ghost target = action.delta.image(current_rope@);
                proof {
                    lemma_image_len(
                        action.delta.pieces(),
                        current_rope@,
                        action.delta.pieces().len() as int,
                    );
                }
                let inverse = action.invert(current_rope);
                self.redo.push((inverse, selection));
                proof {
                    lemma_stack_prefix(self.undo@, undo_before, target, self.undo@.len() as int);
                    lemma_stack_prefix(
                        self.redo@,
                        redo_before,
                        current_rope@,
                        redo_before.len() as int,
                    );
                    assert(old(self).view_at(current_rope@).undo.drop_last() =~= stack_view(
                        undo_before,
                        target,
                        undo_before.len() - 1,
                    ));
                }
                Some((action.delta, old_selection))
            },
            None => None,
        }
    }

    /// As `undo`, the other way round: takes the edit that redoes the last
    /// undone step off the redo stack and puts the edit that undoes it
    /// again, with `selection`, on the undo stack.
    pub fn redo(&mut self, current_rope: &Rope, selection: Selection) -> (r: Option<
        (RopeDelta, Selection),
    >)
        requires
            old(self).wf(current_rope@.len() as int),
            !old(self).has_partial(),
            selection.wf(),
            selection@.bounded(current_rope@.len() as int),
        ensures
            !final(self).has_partial(),
            r is None == (old(self).view_at(current_rope@).redo.len() == 0),
            r is None ==> final(self).wf(current_rope@.len() as int) && final(self).view_at(
                current_rope@,
            ) == old(self).view_at(current_rope@),
            r matches Some((delta, restored)) ==> {
                &&& delta.fits(current_rope@.len() as int)
                &&& restored.wf()
                &&& restored@.bounded(delta.new_len())
                &&& (Snapshot { data: delta.image(current_rope@), selection: restored@ }) == old(self).view_at(current_rope@).redo.last()
                &&& final(self).wf(delta.new_len())
                &&& final(self).view_at(delta.image(current_rope@)) == (HistoryView {
                    undo: old(self).view_at(current_rope@).undo.push(
                        Snapshot { data: current_rope@, selection: selection@ },
                    ),
                    redo: old(self).view_at(current_rope@).redo.drop_last(),
                    partial: None,
                })
            },
    {
        let ghost undo_before = self.undo@;
        let ghost redo_before = self.redo@;
        proof {
            lemma_stack_prefix(redo_before, redo_before, current_rope@, redo_before.len() as int);
        }
        match self.redo.pop() {
            Some((action, old_selection)) => {
                let ghost target = action.delta.image(current_rope@);
                proof {
                    lemma_image_len(
                        action.delta.pieces(),
                        current_rope@,
                        action.delta.pieces().len() as int,
                    );
                }
                let inverse = action.invert(current_rope);
                self.undo.push((inverse, selection));
                proof {
                    lemma_stack_prefix(self.redo@, redo_before, target, self.redo@.len() as int);
                    lemma_stack_prefix(
                        self.undo@,
                        undo_before,
                        current_rope@,
                        undo_before.len() as int,
                    );
                    assert(old(self).view_at(current_rope@).redo.drop_last() =~= stack_view(
                        redo_before,
                        target,
                        redo_before.len() - 1,
                    ));
                }
                Some((action.delta, old_selection))
            },
            None => None,
        }
    }
}

} // verus!
