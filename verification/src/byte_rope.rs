//! The byte rope: a balanced tree of byte chunks from `xi_rope`, seen by the
//! rest of the library as the sequence of bytes that it holds.

use vstd::prelude::*;
use xi_rope::interval::Interval;
use xi_rope::tree::{Cursor, DefaultMetric, Leaf, Metric, Node, NodeInfo, TreeBuilder};

verus! {

/// A leaf below this size is merged with its neighbour.
pub const MIN_LEAF: usize = 511;

/// A leaf is split where it grows beyond this size.
pub const MAX_LEAF: usize = 1024;

#[verifier::external_type_specification]
#[verifier::external_body]
pub struct ExInterval(xi_rope::interval::Interval);

/// The bytes that a rope holds, leaf after leaf.
pub uninterp spec fn rope_bytes(rope: Rope) -> Seq<u8>;

/// One chunk of bytes, the leaf of the rope.
#[derive(Debug, PartialEq, Eq, Clone, Hash, Default)]
pub struct Bytes(pub Vec<u8>);

/// Where an interval starts and where it ends.
pub uninterp spec fn interval_ends(iv: Interval) -> (usize, usize);

/// `Interval::start_end`: where the interval starts and where it ends.
#[verifier::external_body]
fn interval_bounds(iv: Interval) -> (r: (usize, usize))
    ensures
        r == interval_ends(iv),
{
    iv.start_end()
}

/// The bytes of `other` that an interval from `start` to `end` names:
/// those of the range, or none where the range does not lie inside
/// `other`.
pub open spec fn named_bytes(other: Seq<u8>, start: usize, end: usize) -> Seq<u8> {
    if start <= end <= other.len() {
        other.subrange(start as int, end as int)
    } else {
        Seq::empty()
    }
}

impl Leaf for Bytes {
    fn len(&self) -> (r: usize)
        ensures
            r == self.0@.len(),
    {
        self.0.len()
    }

    fn is_ok_child(&self) -> (r: bool)
        ensures
            r == (self.0@.len() >= MIN_LEAF),
    {
        self.0.len() >= MIN_LEAF
    }

    /// Appends the bytes of `other` that `iv` names. Where the chunk grows
    /// beyond `MAX_LEAF`, it is split in half and the second half is
    /// handed back; both halves then hold at least `MIN_LEAF` bytes.
    fn push_maybe_split(&mut self, other: &Bytes, iv: Interval) -> (r: Option<Bytes>)
        ensures
            ({
                let all = old(self).0@ + named_bytes(
                    other.0@,
                    interval_ends(iv).0,
                    interval_ends(iv).1,
                );
                match r {
                    None => all.len() <= MAX_LEAF && final(self).0@ == all,
                    Some(rest) => {
                        &&& all.len() > MAX_LEAF
                        &&& final(self).0@ == all.subrange(0, (all.len() / 2) as int)
                        &&& rest.0@ == all.subrange((all.len() / 2) as int, all.len() as int)
                        &&& final(self).0@.len() >= MIN_LEAF
                        &&& rest.0@.len() >= MIN_LEAF
                        &&& all.len() <= 2 * MAX_LEAF ==> final(self).0@.len() <= MAX_LEAF
                            && rest.0@.len() <= MAX_LEAF
                    },
                }
            }),
    {
        let (start, end) = interval_bounds(iv);
        if start <= end && end <= other.0.len() {
            let piece = vstd::slice::slice_subrange(other.0.as_slice(), start, end);
            self.0.extend_from_slice(piece);
        } else {
            assert(self.0@ + Seq::<u8>::empty() =~= self.0@);
        }
        if self.0.len() <= MAX_LEAF {
            None
        } else {
            let half = self.0.len() / 2;
            let right_bytes = self.0.split_off(half);
            Some(Bytes(right_bytes))
        }
    }
}

/// The summary kept in the inner nodes of the rope: nothing but the length,
/// which the tree keeps itself.
#[derive(Clone, Copy, Default)]
pub struct RopeInfo();

impl NodeInfo for RopeInfo {
    type L = Bytes;

    fn accumulate(&mut self, _other: &Self) {
    }

    fn compute_info(_leaf: &Bytes) -> Self {
        RopeInfo()
    }
}

impl DefaultMetric for RopeInfo {
    type DefaultMetric = BaseMetric;
}

/// The metric that counts bytes: every offset is a boundary.
#[derive(Clone, Copy)]
pub struct BaseMetric();

impl Metric<RopeInfo> for BaseMetric {
    fn measure(_info: &RopeInfo, len: usize) -> (r: usize)
        ensures
            r == len,
    {
        len
    }

    fn to_base_units(_leaf: &Bytes, in_measured_units: usize) -> (r: usize)
        ensures
            r == in_measured_units,
    {
        in_measured_units
    }

    fn from_base_units(_leaf: &Bytes, in_base_units: usize) -> (r: usize)
        ensures
            r == in_base_units,
    {
        in_base_units
    }

    fn is_boundary(_leaf: &Bytes, _offset: usize) -> (r: bool)
        ensures
            r,
    {
        true
    }

    /// The offset before `offset`, if there is one.
    fn prev(_leaf: &Bytes, offset: usize) -> (r: Option<usize>)
        ensures
            r == if offset == 0 {
                None
            } else {
                Some((offset - 1) as usize)
            },
    {
        if offset == 0 {
            None
        } else {
            Some(offset - 1)
        }
    }

    /// The offset behind `offset`, if `offset` lies before the end of the
    /// leaf.
    fn next(leaf: &Bytes, offset: usize) -> (r: Option<usize>)
        ensures
            r == if offset >= leaf.0@.len() {
                None
            } else {
                Some((offset + 1) as usize)
            },
    {
        if offset >= leaf.0.len() {
            None
        } else {
            Some(offset + 1)
        }
    }

    fn can_fragment() -> (r: bool)
        ensures
            !r,
    {
        false
    }
}

/// A sequence of bytes held in a balanced tree of `xi_rope`. A rope is
/// never changed: an edit gives a new rope that shares what it can with the old
/// one.
#[verifier::external_body]
pub struct Rope(pub(crate) Node<RopeInfo>);

/// `Node::len`: the number of bytes in the tree.
#[verifier::external_body]
fn node_len(rope: &Rope) -> (r: usize)
    ensures
        r == rope_bytes(*rope).len(),
{
    rope.0.len()
}

/// `Node::clone`: another handle on the same tree, with the same bytes.
#[verifier::external_body]
fn node_clone(rope: &Rope) -> (r: Rope)
    ensures
        rope_bytes(r) == rope_bytes(*rope),
{
    Rope(rope.0.clone())
}

/// `Cursor::new` and `Cursor::get_leaf`: the leaf that holds the byte at
/// `pos`, and the offset of `pos` in that leaf. The offset is the leaf's
/// length only where `pos` is the end of the tree.
#[verifier::external_body]
fn leaf_at<'a>(rope: &'a Rope, pos: usize) -> (r: Option<(&'a Bytes, usize)>)
    requires
        pos <= rope_bytes(*rope).len(),
    ensures
        r.is_some(),
        r.unwrap().1 <= r.unwrap().0.0@.len(),
        r.unwrap().1 <= pos,
        pos - r.unwrap().1 + r.unwrap().0.0@.len() <= rope_bytes(*rope).len(),
        rope_bytes(*rope).subrange(
            pos - r.unwrap().1,
            pos - r.unwrap().1 + r.unwrap().0.0@.len(),
        ) == r.unwrap().0.0@,
        pos < rope_bytes(*rope).len() ==> r.unwrap().1 < r.unwrap().0.0@.len(),
{
    Cursor::new(&rope.0, pos).get_leaf()
}

/// The bytes of the first `n` leaves, in order.
pub open spec fn leaves_joined(leaves: Seq<Bytes>, n: int) -> Seq<u8>
    decreases n,
{
    if n <= 0 {
        Seq::empty()
    } else {
        leaves_joined(leaves, n - 1) + leaves[n - 1].0@
    }
}

/// `TreeBuilder::new`, `TreeBuilder::push_leaves` and `TreeBuilder::build`:
/// the tree whose leaves hold the bytes of `leaves`, in order.
#[verifier::external_body]
fn rope_from_leaves(leaves: Vec<Bytes>) -> (r: Rope)
    requires
        leaves_joined(leaves@, leaves@.len() as int).len() <= usize::MAX,
    ensures
        rope_bytes(r) == leaves_joined(leaves@, leaves@.len() as int),
{
    let mut builder = TreeBuilder::new();
    builder.push_leaves(leaves);
    Rope(builder.build())
}

impl View for Rope {
    type V = Seq<u8>;

    open spec fn view(&self) -> Seq<u8> {
        rope_bytes(*self)
    }
}

impl Clone for Rope {
    fn clone(&self) -> (r: Rope)
        ensures
            r@ == self@,
    {
        node_clone(self)
    }
}

impl Default for Rope {
    fn default() -> (r: Rope)
        ensures
            r@ == Seq::<u8>::empty(),
    {
        Rope::from_bytes(Vec::new())
    }
}

/// The concatenation of the first `n` chunks.
pub open spec fn chunks_joined(chunks: Seq<&[u8]>, n: int) -> Seq<u8>
    decreases n,
{
    if n <= 0 {
        Seq::empty()
    } else {
        chunks_joined(chunks, n - 1) + chunks[n - 1]@
    }
}

impl Rope {
    /// The rope of the bytes of `vec`, in leaves of at most `MAX_LEAF` bytes.
    pub fn from_bytes(vec: Vec<u8>) -> (r: Rope)
        ensures
            r@ == vec@,
    {
        let ghost all = vec@;
        assert(all.len() == vec.len());
        let mut leaves: Vec<Bytes> = Vec::new();
        let mut rest = vec;
        while rest.len() > 0
            invariant
                all.len() <= usize::MAX,
                leaves_joined(leaves@, leaves@.len() as int) + rest@ == all,
            decreases rest.len(),
        {
            let split_point: usize = if rest.len() <= MAX_LEAF {
                rest.len()
            } else {
                MAX_LEAF
            };
            let ghost before = rest@;
            let ghost joined = leaves_joined(leaves@, leaves@.len() as int);
            let ghost old_leaves = leaves@;
            let tail = rest.split_off(split_point);
            assert(before == rest@ + tail@);
            assert(joined + (rest@ + tail@) == (joined + rest@) + tail@);
            leaves.push(Bytes(rest));
            proof {
                lemma_leaves_joined_prefix(leaves@, old_leaves, old_leaves.len() as int);
            }
            rest = tail;
        }
        assert(leaves_joined(leaves@, leaves@.len() as int) + rest@ == leaves_joined(
            leaves@,
            leaves@.len() as int,
        ));
        rope_from_leaves(leaves)
    }

    pub fn len(&self) -> (r: usize)
        ensures
            r == self@.len(),
    {
        node_len(self)
    }

    pub fn is_empty(&self) -> (r: bool)
        ensures
            r == (self@.len() == 0),
    {
        node_len(self) == 0
    }

    /// The bytes `start..end` as the tree holds them: one borrowed chunk for
    /// each leaf that the range touches, in order, none of them empty.
    pub fn iter_chunks(&self, start: usize, end: usize) -> (r: Vec<&[u8]>)
        requires
            start <= end <= self@.len(),
        ensures
            chunks_joined(r@, r@.len() as int) == self@.subrange(start as int, end as int),
            forall|i: int| 0 <= i < r@.len() ==> (#[trigger] r@[i])@.len() > 0,
    {
        let mut chunks: Vec<&[u8]> = Vec::new();
        let mut pos = start;
        assert(self@.subrange(start as int, start as int) == Seq::<u8>::empty());
        while pos < end
            invariant
                start <= pos <= end <= self@.len(),
                chunks_joined(chunks@, chunks@.len() as int) == self@.subrange(
                    start as int,
                    pos as int,
                ),
                forall|i: int| 0 <= i < chunks@.len() ==> (#[trigger] chunks@[i])@.len() > 0,
            decreases end - pos,
        {
            let (leaf, offset) = leaf_at(self, pos).unwrap();
            let available = leaf.0.len() - offset;
            let wanted = end - pos;
            let take: usize = if wanted < available {
                wanted
            } else {
                available
            };
            let chunk = vstd::slice::slice_subrange(leaf.0.as_slice(), offset, offset + take);
            proof {
                let whole = self@.subrange(pos - offset, pos - offset + leaf.0@.len());
                assert(chunk@ == self@.subrange(pos as int, pos + take)) by {
                    assert(chunk@ =~= whole.subrange(offset as int, offset + take));
                    assert(whole.subrange(offset as int, offset + take) =~= self@.subrange(
                        pos as int,
                        pos + take,
                    ));
                }
                assert(self@.subrange(start as int, pos as int) + self@.subrange(
                    pos as int,
                    pos + take,
                ) =~= self@.subrange(start as int, pos + take));
            }
            let ghost before = chunks@;
            chunks.push(chunk);
            proof {
                assert(chunks@.drop_last() == before);
                lemma_chunks_joined_prefix(chunks@, before, before.len() as int);
            }
            pos = pos + take;
        }
        chunks
    }

    /// A copy of the bytes `start..end`.
    pub fn slice_to_cow(&self, start: usize, end: usize) -> (r: Vec<u8>)
        requires
            start <= end <= self@.len(),
        ensures
            r@ == self@.subrange(start as int, end as int),
    {
        let chunks = self.iter_chunks(start, end);
        let mut result: Vec<u8> = Vec::new();
        let mut i: usize = 0;
        while i < chunks.len()
            invariant
                i <= chunks.len(),
                result@ == chunks_joined(chunks@, i as int),
            decreases chunks.len() - i,
        {
            let ghost before = result@;
            result.extend_from_slice(chunks[i]);
            assert(result@ =~= before + chunks@[i as int]@);
            i += 1;
        }
        result
    }

    /// A copy of all the bytes.
    pub fn to_vec(&self) -> (r: Vec<u8>)
        ensures
            r@ == self@,
    {
        let r = self.slice_to_cow(0, self.len());
        assert(self@.subrange(0, self@.len() as int) == self@);
        r
    }
}

/// The bytes of the first `n` leaves depend on those leaves only.
pub proof fn lemma_leaves_joined_prefix(a: Seq<Bytes>, b: Seq<Bytes>, n: int)
    requires
        0 <= n <= a.len(),
        n <= b.len(),
        forall|i: int| 0 <= i < n ==> a[i] == b[i],
    ensures
        leaves_joined(a, n) == leaves_joined(b, n),
    decreases n,
{
    if n > 0 {
        lemma_leaves_joined_prefix(a, b, n - 1);
    }
}

/// The concatenation of the first `n` chunks depends on those chunks only.
pub proof fn lemma_chunks_joined_prefix(a: Seq<&[u8]>, b: Seq<&[u8]>, n: int)
    requires
        0 <= n <= a.len(),
        n <= b.len(),
        forall|i: int| 0 <= i < n ==> a[i] == b[i],
    ensures
        chunks_joined(a, n) == chunks_joined(b, n),
    decreases n,
{
    if n > 0 {
        lemma_chunks_joined_prefix(a, b, n - 1);
    }
}

} // verus!
