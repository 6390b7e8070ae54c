//! Subsets of the positions of a string, as `xi_rope` holds them, and the
//! arithmetic on them that reversing and composing edits rest on. A subset
//! counts how often each position is in it; a position with count 0 is not.

use crate::byte_rope::Rope;
use vstd::prelude::*;
use xi_rope::multiset::Subset;

verus! {

#[verifier::external_type_specification]
#[verifier::external_body]
pub struct ExSubset(Subset);

/// The count of each position of the string that a subset is of.
pub uninterp spec fn subset_counts(subset: Subset) -> Seq<nat>;

/// How many of the first `n` positions have count 0.
pub open spec fn zeros(counts: Seq<nat>, n: int) -> int
    decreases n,
{
    if n <= 0 {
        0
    } else {
        zeros(counts, n - 1) + if counts[n - 1] == 0 {
            1int
        } else {
            0int
        }
    }
}

/// The elements of `s` at those of the first `n` positions whose count is 0
/// (for `zero`) or is not (for `!zero`).
pub open spec fn picked<T>(counts: Seq<nat>, s: Seq<T>, n: int, zero: bool) -> Seq<T>
    decreases n,
{
    if n <= 0 {
        Seq::empty()
    } else if (counts[n - 1] == 0) == zero {
        picked(counts, s, n - 1, zero).push(s[n - 1])
    } else {
        picked(counts, s, n - 1, zero)
    }
}

/// What is left of `s` when the subset is deleted from it.
pub open spec fn kept<T>(counts: Seq<nat>, s: Seq<T>) -> Seq<T> {
    picked(counts, s, counts.len() as int, true)
}

/// What deleting the subset takes out of `s`.
pub open spec fn dropped<T>(counts: Seq<nat>, s: Seq<T>) -> Seq<T> {
    picked(counts, s, counts.len() as int, false)
}

/// The number of positions outside the subset.
pub open spec fn zero_count(counts: Seq<nat>) -> int {
    zeros(counts, counts.len() as int)
}

/// Count 1 where the count was 0, and 0 elsewhere.
pub open spec fn complement(counts: Seq<nat>) -> Seq<nat> {
    Seq::new(counts.len(), |i: int| if counts[i] == 0 { 1nat } else { 0nat })
}

/// The counts added up, position by position.
pub open spec fn sum(a: Seq<nat>, b: Seq<nat>) -> Seq<nat> {
    Seq::new(a.len(), |i: int| a[i] + b[i])
}

/// The subset `a` of a string, seen in a longer string in which the
/// positions of `b` are new: a new position has count 0, or its count in `b`
/// where `union` is set; the others have their counts of `a`, in order.
pub open spec fn expanded(a: Seq<nat>, b: Seq<nat>, union: bool) -> Seq<nat> {
    Seq::new(
        b.len(),
        |i: int|
            if b[i] > 0 {
                if union {
                    b[i]
                } else {
                    0nat
                }
            } else {
                a[zeros(b, i)]
            },
    )
}

/// No position is counted more than once.
pub open spec fn binary(counts: Seq<nat>) -> bool {
    forall|i: int| 0 <= i < counts.len() ==> #[trigger] counts[i] <= 1
}

/// `Subset::complement`: count 1 where the count was 0, and 0 elsewhere.
#[verifier::external_body]
pub(crate) fn subset_complement(subset: &Subset) -> (r: Subset)
    ensures
        subset_counts(r) == complement(subset_counts(*subset)),
{
    subset.complement()
}

/// `Subset::union`: the counts of two subsets of one string, added up.
#[verifier::external_body]
pub(crate) fn subset_union(a: &Subset, b: &Subset) -> (r: Subset)
    requires
        subset_counts(*a).len() == subset_counts(*b).len(),
        binary(subset_counts(*a)),
        binary(subset_counts(*b)),
    ensures
        subset_counts(r) == sum(subset_counts(*a), subset_counts(*b)),
{
    a.union(b)
}

/// `Subset::transform_expand`: `a` seen in the longer string in which the
/// positions of `b` are new; those have count 0.
#[verifier::external_body]
pub(crate) fn subset_transform_expand(a: &Subset, b: &Subset) -> (r: Subset)
    requires
        subset_counts(*a).len() == zero_count(subset_counts(*b)),
    ensures
        subset_counts(r) == expanded(subset_counts(*a), subset_counts(*b), false),
{
    a.transform_expand(b)
}

/// `Subset::transform_union`: as `Subset::transform_expand`, but the new
/// positions keep their counts of `b`.
#[verifier::external_body]
pub(crate) fn subset_transform_union(a: &Subset, b: &Subset) -> (r: Subset)
    requires
        subset_counts(*a).len() == zero_count(subset_counts(*b)),
    ensures
        subset_counts(r) == expanded(subset_counts(*a), subset_counts(*b), true),
{
    a.transform_union(b)
}

/// `Subset::transform_shrink`: the counts of `a` at the positions that are
/// not in `b`.
#[verifier::external_body]
pub(crate) fn subset_transform_shrink(a: &Subset, b: &Subset) -> (r: Subset)
    requires
        subset_counts(*a).len() == subset_counts(*b).len(),
    ensures
        subset_counts(r) == kept(subset_counts(*b), subset_counts(*a)),
{
    a.transform_shrink(b)
}

/// `Subset::is_empty`: whether no position is in the subset.
#[verifier::external_body]
pub(crate) fn subset_is_empty(subset: &Subset) -> (r: bool)
    ensures
        r == (zero_count(subset_counts(*subset)) == subset_counts(*subset).len()),
{
    subset.is_empty()
}

/// `Subset::delete_from`: the bytes of the rope at the positions that are
/// not in the subset.
#[verifier::external_body]
fn subset_delete_from(subset: &Subset, rope: &Rope) -> (r: Rope)
    requires
        subset_counts(*subset).len() == rope@.len(),
    ensures
        r@ == kept(subset_counts(*subset), rope@),
{
    Rope(subset.delete_from(&rope.0))
}

impl Rope {
    /// The rope of the bytes at the positions outside `subset`, which is a
    /// subset of the positions of this rope.
    pub fn without_subset(&self, subset: &Subset) -> (r: Rope)
        requires
            subset_counts(*subset).len() == self@.len(),
        ensures
            r@ == kept(subset_counts(*subset), self@),
    {
        subset_delete_from(subset, self)
    }
}

/// Among `n` positions, between none and all have count 0, and more
/// positions have no fewer.
pub proof fn lemma_zeros_bounds(counts: Seq<nat>, k: int, n: int)
    requires
        0 <= k <= n,
    ensures
        0 <= zeros(counts, k) <= zeros(counts, n),
        zeros(counts, n) - zeros(counts, k) <= n - k,
        zeros(counts, k) <= k,
    decreases n,
{
    if n > 0 {
        if k < n {
            lemma_zeros_bounds(counts, k, n - 1);
        } else {
            lemma_zeros_bounds(counts, k - 1, n - 1);
        }
    }
}

/// A position with count 0 has fewer such positions before it than there
/// are in all.
pub proof fn lemma_zeros_rank(counts: Seq<nat>, i: int, n: int)
    requires
        0 <= i < n,
        counts[i] == 0,
    ensures
        0 <= zeros(counts, i) < zeros(counts, n),
{
    lemma_zeros_bounds(counts, i, i);
    lemma_zeros_bounds(counts, i + 1, n);
}

/// As many elements are picked as there are positions of the wanted kind.
pub proof fn lemma_picked_len<T>(counts: Seq<nat>, s: Seq<T>, n: int)
    requires
        0 <= n,
    ensures
        picked(counts, s, n, true).len() == zeros(counts, n),
        picked(counts, s, n, false).len() == n - zeros(counts, n),
    decreases n,
{
    if n > 0 {
        lemma_picked_len(counts, s, n - 1);
    }
}

/// What is picked among the first `n` positions depends on those positions
/// only.
pub proof fn lemma_picked_prefix<T>(
    c1: Seq<nat>,
    s1: Seq<T>,
    c2: Seq<nat>,
    s2: Seq<T>,
    n: int,
    zero: bool,
)
    requires
        0 <= n,
        forall|i: int| 0 <= i < n ==> c1[i] == c2[i] && s1[i] == s2[i],
    ensures
        picked(c1, s1, n, zero) == picked(c2, s2, n, zero),
    decreases n,
{
    if n > 0 {
        lemma_picked_prefix(c1, s1, c2, s2, n - 1, zero);
    }
}

/// How many positions have count 0 depends on the positions counted only.
pub proof fn lemma_zeros_prefix(c1: Seq<nat>, c2: Seq<nat>, n: int)
    requires
        0 <= n,
        forall|i: int| 0 <= i < n ==> (c1[i] == 0) == (c2[i] == 0),
    ensures
        zeros(c1, n) == zeros(c2, n),
    decreases n,
{
    if n > 0 {
        lemma_zeros_prefix(c1, c2, n - 1);
    }
}

/// What deleting the complement leaves is what deleting the subset takes
/// out.
pub proof fn lemma_picked_complement<T>(counts: Seq<nat>, s: Seq<T>, n: int)
    requires
        0 <= n <= counts.len(),
    ensures
        picked(complement(counts), s, n, true) == picked(counts, s, n, false),
    decreases n,
{
    if n > 0 {
        lemma_picked_complement(counts, s, n - 1);
    }
}

/// Deleting from a longer string, in which the positions of `b` are new:
/// what the expanded subset takes out of that string is what `a` takes out
/// of the string without the new positions.
pub proof fn lemma_dropped_expanded<T>(a: Seq<nat>, b: Seq<nat>, u: Seq<T>, n: int)
    requires
        0 <= n <= b.len(),
    ensures
        picked(expanded(a, b, false), u, n, false) == picked(
            a,
            picked(b, u, n, true),
            zeros(b, n),
            false,
        ),
    decreases n,
{
    if n > 0 {
        lemma_dropped_expanded(a, b, u, n - 1);
        lemma_picked_len(b, u, n - 1);
        lemma_zeros_bounds(b, n - 1, n - 1);
        let z = zeros(b, n - 1);
        let before = picked(b, u, n - 1, true);
        if b[n - 1] == 0 {
            let now = picked(b, u, n, true);
            assert(now == before.push(u[n - 1]));
            assert(now[z] == u[n - 1]);
            lemma_picked_prefix(a, now, a, before, z, false);
        }
    }
}

/// Expanding keeps every count at most 1.
pub proof fn lemma_expanded_binary(a: Seq<nat>, b: Seq<nat>, union: bool)
    requires
        binary(a),
        binary(b),
        a.len() == zero_count(b),
    ensures
        binary(expanded(a, b, union)),
        expanded(a, b, union).len() == b.len(),
{
    let e = expanded(a, b, union);
    assert forall|i: int| 0 <= i < e.len() implies #[trigger] e[i] <= 1 by {
        if b[i] == 0 {
            lemma_zeros_rank(b, i, b.len() as int);
            assert(a[zeros(b, i)] <= 1);
        } else {
            assert(b[i] <= 1);
        }
    }
}

/// The positions that an expanded subset leaves: the new ones, and those
/// that `a` leaves.
pub proof fn lemma_zeros_expanded(a: Seq<nat>, b: Seq<nat>, n: int)
    requires
        0 <= n <= b.len(),
    ensures
        zeros(expanded(a, b, false), n) == (n - zeros(b, n)) + zeros(a, zeros(b, n)),
        zeros(expanded(a, b, true), n) == zeros(a, zeros(b, n)),
    decreases n,
{
    if n > 0 {
        lemma_zeros_expanded(a, b, n - 1);
        lemma_zeros_bounds(b, n - 1, n - 1);
    }
}

/// Two subsets expanded alike and added up leave the new positions and
/// what their sum leaves.
pub proof fn lemma_zeros_sum_expanded(x: Seq<nat>, y: Seq<nat>, s: Seq<nat>, n: int)
    requires
        0 <= n <= s.len(),
        x.len() == y.len(),
        zeros(s, n) <= x.len(),
    ensures
        zeros(sum(expanded(x, s, false), expanded(y, s, false)), n) == (n - zeros(s, n)) + zeros(
            sum(x, y),
            zeros(s, n),
        ),
    decreases n,
{
    if n > 0 {
        lemma_zeros_bounds(s, n - 1, n);
        lemma_zeros_sum_expanded(x, y, s, n - 1);
        lemma_zeros_bounds(s, n - 1, n - 1);
    }
}

/// A subset and another expanded through it leave, together, what the other
/// leaves.
pub proof fn lemma_zeros_sum_through(a: Seq<nat>, b: Seq<nat>, n: int)
    requires
        0 <= n <= b.len(),
    ensures
        zeros(sum(b, expanded(a, b, false)), n) == zeros(a, zeros(b, n)),
    decreases n,
{
    if n > 0 {
        lemma_zeros_sum_through(a, b, n - 1);
        lemma_zeros_bounds(b, n - 1, n - 1);
    }
}

/// The positions of `b` that an expanded `a` leaves, counted by `b`: those
/// outside `b` among them are as many as `a` leaves.
pub proof fn lemma_zeros_kept_through(a: Seq<nat>, b: Seq<nat>, n: int)
    requires
        0 <= n <= b.len(),
    ensures
        zeros(
            picked(expanded(a, b, false), b, n, true),
            picked(expanded(a, b, false), b, n, true).len() as int,
        ) == zeros(a, zeros(b, n)),
    decreases n,
{
    if n > 0 {
        lemma_zeros_kept_through(a, b, n - 1);
        lemma_zeros_bounds(b, n - 1, n - 1);
        let e = expanded(a, b, false);
        let before = picked(e, b, n - 1, true);
        let now = picked(e, b, n, true);
        if e[n - 1] == 0 {
            assert(now == before.push(b[n - 1]));
            lemma_zeros_prefix(now, before, before.len() as int);
        }
    }
}

/// Through a subset without positions, expanding changes nothing.
pub proof fn lemma_expanded_through_none(a: Seq<nat>, b: Seq<nat>)
    requires
        a.len() == b.len(),
        zero_count(b) == b.len(),
    ensures
        expanded(a, b, false) =~= a,
{
    assert forall|i: int| 0 <= i < b.len() implies b[i] == 0 && zeros(b, i) == i by {
        lemma_all_zero(b, i, b.len() as int);
    }
}

/// Where all of `n` positions have count 0, each of them has, and as many
/// come before a position as its index says.
pub proof fn lemma_all_zero(b: Seq<nat>, i: int, n: int)
    requires
        0 <= i < n,
        zeros(b, n) == n,
    ensures
        b[i] == 0,
        zeros(b, i) == i,
    decreases n,
{
    lemma_zeros_bounds(b, n - 1, n - 1);
    if i < n - 1 {
        lemma_all_zero(b, i, n - 1);
    }
}


/// A subset seen in a longer string with the new positions counted is the
/// sum of the new positions and the subset seen there without them.
pub proof fn lemma_union_is_sum(a: Seq<nat>, c: Seq<nat>)
    ensures
        sum(expanded(a, c, false), c) =~= expanded(a, c, true),
{
}

/// Over a run of positions that all have count 0, or none of which has,
/// the elements of the run are picked, all or none.
pub proof fn lemma_picked_run<T>(counts: Seq<nat>, s: Seq<T>, from: int, to: int, zero: bool)
    requires
        0 <= from <= to <= s.len(),
        forall|i: int| from <= i < to ==> (#[trigger] counts[i] == 0) == zero,
    ensures
        picked(counts, s, to, zero) == picked(counts, s, from, zero) + s.subrange(from, to),
        picked(counts, s, to, !zero) == picked(counts, s, from, !zero),
    decreases to - from,
{
    if from < to {
        lemma_picked_run(counts, s, from, to - 1, zero);
        assert((counts[to - 1] == 0) == zero);
        assert(s.subrange(from, to) =~= s.subrange(from, to - 1).push(s[to - 1]));
        assert(picked(counts, s, to, zero) =~= picked(counts, s, from, zero) + s.subrange(
            from,
            to,
        ));
    } else {
        assert(picked(counts, s, to, zero) =~= picked(counts, s, from, zero) + s.subrange(
            from,
            to,
        ));
    }
}

/// Where every position of the subset holds 0, what the subset takes out
/// is zeros.
pub proof fn lemma_dropped_zeros(counts: Seq<nat>, s: Seq<nat>, n: int)
    requires
        0 <= n,
        forall|i: int| 0 <= i < n && counts[i] > 0 ==> #[trigger] s[i] == 0,
    ensures
        picked(counts, s, n, false) =~= Seq::new((n - zeros(counts, n)) as nat, |i: int| 0nat),
    decreases n,
{
    if n > 0 {
        lemma_dropped_zeros(counts, s, n - 1);
        lemma_zeros_bounds(counts, n - 1, n - 1);
        if counts[n - 1] > 0 {
            assert(s[n - 1] == 0);
        }
    }
}

/// What is left of an expanded subset at the positions that are not new is
/// the subset.
pub proof fn lemma_kept_of_expanded(a: Seq<nat>, b: Seq<nat>, union: bool, n: int)
    requires
        0 <= n <= b.len(),
        a.len() == zero_count(b),
    ensures
        zeros(b, n) <= a.len(),
        picked(b, expanded(a, b, union), n, true) =~= a.subrange(0, zeros(b, n)),
    decreases n,
{
    lemma_zeros_bounds(b, n, b.len() as int);
    if n > 0 {
        lemma_kept_of_expanded(a, b, union, n - 1);
        lemma_zeros_bounds(b, n - 1, n - 1);
    }
}

/// Deleting two subsets at once: the second, which is one of what the
/// first leaves, seen among the positions of the first, with these
/// counted. What is left is what the second leaves of what the first
/// leaves.
pub proof fn lemma_kept_through<T>(a: Seq<nat>, c: Seq<nat>, w: Seq<T>, n: int)
    requires
        0 <= n <= c.len(),
    ensures
        picked(expanded(a, c, true), w, n, true) == picked(
            a,
            picked(c, w, n, true),
            zeros(c, n),
            true,
        ),
    decreases n,
{
    if n > 0 {
        lemma_kept_through(a, c, w, n - 1);
        lemma_picked_len(c, w, n - 1);
        lemma_zeros_bounds(c, n - 1, n - 1);
        let z = zeros(c, n - 1);
        let before = picked(c, w, n - 1, true);
        if c[n - 1] == 0 {
            let now = picked(c, w, n, true);
            assert(now == before.push(w[n - 1]));
            assert(now[z] == w[n - 1]);
            lemma_picked_prefix(a, now, a, before, z, true);
        }
    }
}

/// Deleting a subset from two strings alike, one of them a subset itself:
/// what that one then leaves of the other is what the sum of the two
/// leaves.
pub proof fn lemma_kept_twice<T>(a: Seq<nat>, c: Seq<nat>, w: Seq<T>, n: int)
    requires
        0 <= n <= a.len(),
    ensures
        picked(picked(a, c, n, true), picked(a, w, n, true), zeros(a, n), true) == picked(
            sum(a, c),
            w,
            n,
            true,
        ),
    decreases n,
{
    if n > 0 {
        lemma_kept_twice(a, c, w, n - 1);
        lemma_picked_len(a, c, n - 1);
        lemma_picked_len(a, w, n - 1);
        lemma_zeros_bounds(a, n - 1, n - 1);
        let z = zeros(a, n - 1);
        if a[n - 1] == 0 {
            let marks = picked(a, c, n - 1, true);
            let text = picked(a, w, n - 1, true);
            let marks_now = picked(a, c, n, true);
            let text_now = picked(a, w, n, true);
            assert(marks_now == marks.push(c[n - 1]));
            assert(text_now == text.push(w[n - 1]));
            lemma_picked_prefix(marks_now, text_now, marks, text, z, true);
        }
    }
}

/// Deleting a subset from two strings alike, one of them a subset that
/// shares no position with it: that one takes out of the other what it
/// took out before.
pub proof fn lemma_dropped_apart<T>(x: Seq<nat>, c: Seq<nat>, w: Seq<T>, n: int)
    requires
        0 <= n,
        forall|i: int| 0 <= i < n && x[i] > 0 ==> #[trigger] c[i] == 0,
    ensures
        picked(picked(x, c, n, true), picked(x, w, n, true), zeros(x, n), false) == picked(
            c,
            w,
            n,
            false,
        ),
    decreases n,
{
    if n > 0 {
        lemma_dropped_apart(x, c, w, n - 1);
        lemma_picked_len(x, c, n - 1);
        lemma_picked_len(x, w, n - 1);
        lemma_zeros_bounds(x, n - 1, n - 1);
        let z = zeros(x, n - 1);
        if x[n - 1] == 0 {
            let marks = picked(x, c, n - 1, true);
            let text = picked(x, w, n - 1, true);
            let marks_now = picked(x, c, n, true);
            let text_now = picked(x, w, n, true);
            assert(marks_now == marks.push(c[n - 1]));
            assert(text_now == text.push(w[n - 1]));
            lemma_picked_prefix(marks_now, text_now, marks, text, z, false);
        } else {
            assert(c[n - 1] == 0);
        }
    }
}

/// Two strings of which a subset leaves the same and takes out the same
/// are the same.
pub proof fn lemma_interleaved<T>(m: Seq<nat>, s: Seq<T>, t: Seq<T>, n: int)
    requires
        0 <= n,
        picked(m, s, n, true) == picked(m, t, n, true),
        picked(m, s, n, false) == picked(m, t, n, false),
    ensures
        forall|i: int| 0 <= i < n ==> s[i] == t[i],
    decreases n,
{
    if n > 0 {
        let zero = m[n - 1] == 0;
        let ps = picked(m, s, n - 1, zero);
        let pt = picked(m, t, n - 1, zero);
        assert(picked(m, s, n, zero) == ps.push(s[n - 1]));
        assert(picked(m, t, n, zero) == pt.push(t[n - 1]));
        assert(ps.push(s[n - 1]).drop_last() =~= ps);
        assert(pt.push(t[n - 1]).drop_last() =~= pt);
        assert(ps.push(s[n - 1]).last() == s[n - 1]);
        assert(pt.push(t[n - 1]).last() == t[n - 1]);
        lemma_interleaved(m, s, t, n - 1);
    }
}

/// Expanding and shrinking change places: a subset seen in a longer
/// string, of which a second subset, seen there as well, is then deleted,
/// is what the second leaves of the first, seen in the string that the
/// second leaves of the longer one.
pub proof fn lemma_expanded_shrunk(a: Seq<nat>, x: Seq<nat>, new: Seq<nat>)
    requires
        a.len() == zero_count(new),
        x.len() == zero_count(new),
    ensures
        kept(expanded(x, new, false), expanded(a, new, false)) == expanded(
            kept(x, a),
            kept(expanded(x, new, false), new),
            false,
        ),
{
    let n = new.len() as int;
    let through = expanded(x, new, false);
    let marks = kept(through, new);
    let wide = expanded(a, new, false);
    let left = kept(through, wide);
    let right = expanded(kept(x, a), marks, false);
    lemma_zeros_expanded(x, new, n);
    lemma_zeros_kept_through(x, new, n);
    lemma_picked_len(through, new, n);
    lemma_picked_len(through, wide, n);
    lemma_picked_len(x, a, x.len() as int);
    let k = marks.len() as int;
    assert(left.len() == k);
    assert(right.len() == k);
    assert(zero_count(marks) == kept(x, a).len());
    // What the marks leave.
    lemma_kept_of_expanded(kept(x, a), marks, false, k);
    assert(kept(x, a).subrange(0, kept(x, a).len() as int) =~= kept(x, a));
    lemma_kept_twice(through, new, wide, n);
    lemma_union_is_sum(x, new);
    lemma_kept_through(x, new, wide, n);
    lemma_kept_of_expanded(a, new, false, n);
    assert(a.subrange(0, a.len() as int) =~= a);
    assert(picked(marks, left, k, true) == kept(x, a));
    // What the marks take out.
    assert forall|i: int| 0 <= i < k && marks[i] > 0 implies #[trigger] right[i] == 0 by {}
    lemma_dropped_zeros(marks, right, k);
    lemma_dropped_apart(through, new, wide, n);
    assert forall|i: int| 0 <= i < n && new[i] > 0 implies #[trigger] wide[i] == 0 by {}
    lemma_dropped_zeros(new, wide, n);
    assert(picked(marks, left, k, false) =~= picked(marks, right, k, false));
    lemma_interleaved(marks, left, right, k);
    assert(left =~= right);
}

/// Expanding twice in two orders: a subset of what a second one leaves,
/// seen first where the second is back and then where new positions are,
/// is the same as seen first where the new positions are and then where
/// the second is back.
pub proof fn lemma_expanded_twice(d: Seq<nat>, x: Seq<nat>, new: Seq<nat>)
    requires
        d.len() == zero_count(x),
        x.len() == zero_count(new),
    ensures
        expanded(expanded(d, x, false), new, false) == expanded(
            expanded(d, kept(expanded(x, new, false), new), false),
            expanded(x, new, false),
            false,
        ),
{
    let n = new.len() as int;
    let through = expanded(x, new, false);
    let marks = kept(through, new);
    let inner = expanded(d, x, false);
    let left = expanded(inner, new, false);
    let right = expanded(expanded(d, marks, false), through, false);
    lemma_zeros_expanded(x, new, n);
    lemma_zeros_kept_through(x, new, n);
    lemma_picked_len(through, new, n);
    assert(marks.len() == zero_count(through));
    assert(zero_count(marks) == d.len());
    // What the second subset leaves.
    lemma_kept_of_expanded(expanded(d, marks, false), through, false, n);
    assert(expanded(d, marks, false).subrange(0, marks.len() as int) =~= expanded(
        d,
        marks,
        false,
    ));
    lemma_expanded_shrunk(inner, x, new);
    lemma_kept_of_expanded(d, x, false, x.len() as int);
    assert(d.subrange(0, d.len() as int) =~= d);
    assert(kept(x, inner) == d);
    assert(picked(through, left, n, true) == picked(through, right, n, true));
    // What it takes out.
    assert forall|i: int| 0 <= i < n && through[i] > 0 implies #[trigger] right[i] == 0 by {}
    assert forall|i: int| 0 <= i < n && through[i] > 0 implies #[trigger] left[i] == 0 by {
        lemma_zeros_rank(new, i, n);
    }
    lemma_dropped_zeros(through, right, n);
    lemma_dropped_zeros(through, left, n);
    lemma_interleaved(through, left, right, n);
    assert(left =~= right);
}


/// What a subset leaves of the sum of two others is the sum of what it
/// leaves of each.
pub proof fn lemma_kept_sum(x: Seq<nat>, a: Seq<nat>, c: Seq<nat>, n: int)
    requires
        0 <= n <= a.len(),
    ensures
        picked(x, sum(a, c), n, true) =~= sum(picked(x, a, n, true), picked(x, c, n, true)),
    decreases n,
{
    if n > 0 {
        lemma_kept_sum(x, a, c, n - 1);
        lemma_picked_len(x, a, n - 1);
        lemma_picked_len(x, c, n - 1);
        lemma_picked_len(x, sum(a, c), n - 1);
        lemma_picked_len(x, a, n);
        lemma_picked_len(x, c, n);
        lemma_picked_len(x, sum(a, c), n);
    }
}

} // verus!
