//! Selection regions and the ordered, non-overlapping multi-selection.
//!
//! A region is a caret, a tail and a flag that marks the main region. A
//! selection is a non-empty list of regions, strictly ordered and pairwise
//! disjoint, exactly one of which is the main one.

use crate::delta::{
    piece_len, pieces_fit, pieces_len, transformed, transformed_from, Piece, RopeDelta,
};
use vstd::prelude::*;

verus! {

/// The four directions a caret can move in.
#[derive(Debug, PartialEq, Eq, Clone, Copy, Structural)]
pub enum Direction {
    Up,
    Down,
    Left,
    Right,
}

/// One selected span: the moving end (`caret`), the anchored end (`tail`),
/// both inclusive, and whether this is the main region of its selection.
#[derive(Debug, PartialEq, Eq, Clone, Copy, Structural)]
pub struct SelRegion {
    pub caret: usize,
    pub tail: usize,
    pub main: bool,
}

/// The smaller of two integers.
pub open spec fn int_min(a: int, b: int) -> int {
    if a <= b {
        a
    } else {
        b
    }
}

/// The larger of two integers.
pub open spec fn int_max(a: int, b: int) -> int {
    if a >= b {
        a
    } else {
        b
    }
}

/// Where a caret lands after a relative move of `count` columns (left, right)
/// or `count` lines (up, down), kept inside `[0, max_size]`.
pub open spec fn moved_caret(
    caret: int,
    direction: Direction,
    bytes_per_line: int,
    max_size: int,
    count: int,
) -> int {
    match direction {
        Direction::Up => int_max(0, caret - bytes_per_line * count),
        Direction::Down => int_min(max_size, caret + bytes_per_line * count),
        Direction::Left => int_max(0, caret - count),
        Direction::Right => int_min(max_size, caret + count),
    }
}

/// Where a caret lands after a jump to the start or end of the buffer (up,
/// down) or of its line (left, right). Never the slot past the last byte.
pub open spec fn boundary_caret(
    caret: int,
    direction: Direction,
    bytes_per_line: int,
    max_size: int,
) -> int {
    match direction {
        Direction::Up => 0,
        Direction::Down => max_size - 1,
        Direction::Left => caret - caret % bytes_per_line,
        Direction::Right => int_min(
            caret - caret % bytes_per_line + bytes_per_line - 1,
            max_size - 1,
        ),
    }
}

fn usize_min(a: usize, b: usize) -> (r: usize)
    ensures
        r == int_min(a as int, b as int),
{
    if a <= b {
        a
    } else {
        b
    }
}

fn usize_max(a: usize, b: usize) -> (r: usize)
    ensures
        r == int_max(a as int, b as int),
{
    if a >= b {
        a
    } else {
        b
    }
}

/// The product of two sizes, or the largest size where it does not fit.
fn saturating_product(a: usize, b: usize) -> (r: usize)
    ensures
        r == int_min(a * b, usize::MAX as int),
{
    match a.checked_mul(b) {
        Some(p) => p,
        None => usize::MAX,
    }
}

fn move_caret(
    caret: usize,
    direction: Direction,
    bytes_per_line: usize,
    max_size: usize,
    count: usize,
) -> (r: usize)
    ensures
        r == moved_caret(caret as int, direction, bytes_per_line as int, max_size as int, count as int),
{
    match direction {
        Direction::Up => caret.saturating_sub(saturating_product(bytes_per_line, count)),
        Direction::Down => usize_min(
            max_size,
            caret.saturating_add(saturating_product(bytes_per_line, count)),
        ),
        Direction::Left => caret.saturating_sub(count),
        Direction::Right => usize_min(max_size, caret.saturating_add(count)),
    }
}

/// The offset at which the line of `caret` starts.
fn line_start(caret: usize, bytes_per_line: usize) -> (r: usize)
    requires
        bytes_per_line > 0,
    ensures
        r == caret - caret % bytes_per_line,
{
    assert(caret % bytes_per_line <= caret) by (nonlinear_arith)
        requires
            bytes_per_line > 0,
    ;
    caret - caret % bytes_per_line
}

fn boundary_of(caret: usize, direction: Direction, bytes_per_line: usize, max_size: usize) -> (r:
    usize)
    requires
        bytes_per_line > 0,
        max_size > 0,
    ensures
        r == boundary_caret(caret as int, direction, bytes_per_line as int, max_size as int),
{
    match direction {
        Direction::Up => 0,
        Direction::Down => max_size - 1,
        Direction::Left => line_start(caret, bytes_per_line),
        Direction::Right => usize_min(
            line_start(caret, bytes_per_line).saturating_add(bytes_per_line - 1),
            max_size - 1,
        ),
    }
}

impl Default for SelRegion {
    fn default() -> (r: SelRegion)
        ensures
            r == (SelRegion { caret: 0, tail: 0, main: false }),
    {
        SelRegion::new(0, 0)
    }
}

impl SelRegion {
    /// The smaller end of the region.
    pub open spec fn spec_min(self) -> int {
        int_min(self.caret as int, self.tail as int)
    }

    /// The larger end of the region.
    pub open spec fn spec_max(self) -> int {
        int_max(self.caret as int, self.tail as int)
    }

    /// The number of bytes the region covers; both ends count.
    pub open spec fn spec_len(self) -> int {
        self.spec_max() - self.spec_min() + 1
    }

    /// The region runs forward: the caret is at or behind the tail. A
    /// cursor on one byte runs forward.
    pub open spec fn spec_forward(self) -> bool {
        self.caret >= self.tail
    }

    /// The region runs backward: the caret is before the tail.
    pub open spec fn spec_backward(self) -> bool {
        self.caret < self.tail
    }

    /// The caret is at or before the tail: the region runs backward or is
    /// a cursor on one byte, which goes with regions of either direction.
    pub open spec fn spec_leans_backward(self) -> bool {
        self.caret <= self.tail
    }

    /// `self` reaches at least as far as the start of `other`.
    pub open spec fn spec_overlaps(self, other: SelRegion) -> bool {
        self.spec_max() >= other.spec_min()
    }

    /// The two regions have a byte in common.
    pub open spec fn spec_shares(self, other: SelRegion) -> bool {
        self.spec_min() <= other.spec_max() && other.spec_min() <= self.spec_max()
    }

    /// The two regions run in the same direction, a cursor going with
    /// either.
    pub open spec fn spec_agrees(self, other: SelRegion) -> bool {
        (self.spec_forward() && other.spec_forward()) || (self.spec_leans_backward()
            && other.spec_leans_backward())
    }

    /// Both ends lie in `[0, len]`; `len` itself is the slot past the last byte.
    pub open spec fn bounded(self, len: int) -> bool {
        self.caret <= len && self.tail <= len
    }

    /// The same span without the main flag.
    pub open spec fn plain(self) -> SelRegion {
        SelRegion { caret: self.caret, tail: self.tail, main: false }
    }

    /// The same span with the main flag set to `main`.
    pub open spec fn flagged(self, main: bool) -> SelRegion {
        SelRegion { caret: self.caret, tail: self.tail, main }
    }

    /// Two regions can be merged when they run in the same direction, a
    /// cursor going with either; two single-byte cursors only when they
    /// sit on the same byte.
    pub open spec fn can_merge(self, other: SelRegion) -> bool {
        let both_forward = self.spec_forward() && other.spec_forward();
        let both_backward = self.spec_leans_backward() && other.spec_leans_backward();
        (both_forward || both_backward) && (both_forward && both_backward ==> self.caret
            == other.caret)
    }

    /// The merge of two regions: the span from the smaller start to the larger
    /// end, in the common direction, main if either was.
    pub open spec fn spec_merge(self, other: SelRegion) -> SelRegion {
        let both_forward = self.spec_forward() && other.spec_forward();
        let both_backward = self.spec_leans_backward() && other.spec_leans_backward();
        let main = self.main || other.main;
        if both_forward && both_backward {
            self.flagged(main)
        } else if both_forward {
            SelRegion {
                caret: int_max(self.caret as int, other.caret as int) as usize,
                tail: int_min(self.tail as int, other.tail as int) as usize,
                main,
            }
        } else {
            SelRegion {
                caret: int_min(self.caret as int, other.caret as int) as usize,
                tail: int_max(self.tail as int, other.tail as int) as usize,
                main,
            }
        }
    }

    /// The same span, caret last.
    pub open spec fn spec_to_forward(self) -> SelRegion {
        SelRegion { caret: self.spec_max() as usize, tail: self.spec_min() as usize, main: false }
    }

    /// The same span, caret first.
    pub open spec fn spec_to_backward(self) -> SelRegion {
        SelRegion { caret: self.spec_min() as usize, tail: self.spec_max() as usize, main: false }
    }

    /// The same span, running as `parent` does.
    pub open spec fn spec_inherit_direction(self, parent: SelRegion) -> SelRegion {
        if parent.spec_forward() {
            self.spec_to_forward()
        } else {
            self.spec_to_backward()
        }
    }

    /// What is left of the region before `start`, if anything.
    pub open spec fn left_piece(self, start: int) -> Option<SelRegion> {
        if start <= self.spec_min() {
            None
        } else {
            Some(
                (SelRegion {
                    caret: self.spec_min() as usize,
                    tail: (start - 1) as usize,
                    main: false,
                }).spec_inherit_direction(self),
            )
        }
    }

    /// What is left of the region after `end`, if anything.
    pub open spec fn right_piece(self, end: int) -> Option<SelRegion> {
        if end >= self.spec_max() {
            None
        } else {
            Some(
                (SelRegion {
                    caret: (end + 1) as usize,
                    tail: self.spec_max() as usize,
                    main: false,
                }).spec_inherit_direction(self),
            )
        }
    }

    pub fn new(caret: usize, tail: usize) -> (r: Self)
        ensures
            r == (SelRegion { caret, tail, main: false }),
    {
        SelRegion { caret, tail, main: false }
    }

    pub fn is_main(&self) -> (r: bool)
        ensures
            r == self.main,
    {
        self.main
    }

    pub fn with_direction(self, backward: bool) -> (r: SelRegion)
        ensures
            r == if backward {
                self.spec_to_backward()
            } else {
                self.spec_to_forward()
            },
    {
        let max = usize_max(self.caret, self.tail);
        let min = usize_min(self.caret, self.tail);
        if backward {
            SelRegion::new(min, max)
        } else {
            SelRegion::new(max, min)
        }
    }

    pub fn max(&self) -> (r: usize)
        ensures
            r == self.spec_max(),
    {
        usize_max(self.caret, self.tail)
    }

    pub fn min(&self) -> (r: usize)
        ensures
            r == self.spec_min(),
    {
        usize_min(self.caret, self.tail)
    }

    pub fn len(&self) -> (r: usize)
        requires
            self.spec_len() <= usize::MAX,
        ensures
            r == self.spec_len(),
    {
        self.max() - self.min() + 1
    }

    pub fn overlaps(&self, other: &SelRegion) -> (r: bool)
        ensures
            r == self.spec_overlaps(*other),
    {
        self.max() >= other.min()
    }

    /// Moves the caret by `count` columns or lines and collapses the region
    /// onto it. A region of an empty buffer stays as it is.
    pub fn simple_move(
        &self,
        direction: Direction,
        bytes_per_line: usize,
        max_size: usize,
        count: usize,
    ) -> (r: SelRegion)
        ensures
            max_size == 0 ==> r == *self,
            max_size > 0 ==> r.main == false && r.caret == r.tail && r.caret == moved_caret(
                self.caret as int,
                direction,
                bytes_per_line as int,
                max_size as int,
                count as int,
            ),
            self.bounded(max_size as int) ==> r.bounded(max_size as int),
    {
        if max_size == 0 {
            return *self;
        }
        let caret_location = move_caret(self.caret, direction, bytes_per_line, max_size, count);
        SelRegion::new(caret_location, caret_location)
    }

    /// Moves the caret by `count` columns or lines and leaves the tail where it
    /// is. A region of an empty buffer stays as it is.
    pub fn simple_extend(
        &self,
        direction: Direction,
        bytes_per_line: usize,
        max_size: usize,
        count: usize,
    ) -> (r: SelRegion)
        ensures
            max_size == 0 ==> r == *self,
            max_size > 0 ==> r.main == false && r.tail == self.tail && r.caret == moved_caret(
                self.caret as int,
                direction,
                bytes_per_line as int,
                max_size as int,
                count as int,
            ),
            self.bounded(max_size as int) ==> r.bounded(max_size as int),
    {
        if max_size == 0 {
            return *self;
        }
        let caret_location = move_caret(self.caret, direction, bytes_per_line, max_size, count);
        SelRegion::new(caret_location, self.tail)
    }

    pub fn jump_to(&self, offset: usize) -> (r: SelRegion)
        ensures
            r == (SelRegion { caret: offset, tail: offset, main: false }),
    {
        SelRegion::new(offset, offset)
    }

    pub fn extend_to(&self, offset: usize) -> (r: SelRegion)
        ensures
            r == (SelRegion { caret: offset, tail: self.tail, main: false }),
    {
        SelRegion::new(offset, self.tail)
    }

    /// Puts the caret on the first or last byte of the buffer or of the
    /// caret's line and collapses the region onto it.
    pub fn jump_to_boundary(&self, direction: Direction, bytes_per_line: usize, max_size: usize) -> (r:
        SelRegion)
        requires
            bytes_per_line > 0,
        ensures
            max_size == 0 ==> r == *self,
            max_size > 0 ==> r.main == false && r.caret == r.tail && r.caret == boundary_caret(
                self.caret as int,
                direction,
                bytes_per_line as int,
                max_size as int,
            ),
            self.bounded(max_size as int) ==> r.bounded(max_size as int),
    {
        if max_size == 0 {
            return *self;
        }
        let caret_location = boundary_of(self.caret, direction, bytes_per_line, max_size);
        SelRegion::new(caret_location, caret_location)
    }

    /// Puts the caret on the first or last byte of the buffer or of the
    /// caret's line and leaves the tail where it is.
    pub fn extend_to_boundary(
        &self,
        direction: Direction,
        bytes_per_line: usize,
        max_size: usize,
    ) -> (r: SelRegion)
        requires
            bytes_per_line > 0,
        ensures
            max_size == 0 ==> r == *self,
            max_size > 0 ==> r.main == false && r.tail == self.tail && r.caret == boundary_caret(
                self.caret as int,
                direction,
                bytes_per_line as int,
                max_size as int,
            ),
            self.bounded(max_size as int) ==> r.bounded(max_size as int),
    {
        if max_size == 0 {
            return *self;
        }
        let caret_location = boundary_of(self.caret, direction, bytes_per_line, max_size);
        SelRegion::new(caret_location, self.tail)
    }

    pub fn swap_caret(&self) -> (r: SelRegion)
        ensures
            r == (SelRegion { caret: self.tail, tail: self.caret, main: false }),
    {
        SelRegion::new(self.tail, self.caret)
    }

    pub fn collapse(&self) -> (r: SelRegion)
        ensures
            r == (SelRegion { caret: self.caret, tail: self.caret, main: false }),
    {
        SelRegion::new(self.caret, self.caret)
    }

    pub fn forward(&self) -> (r: bool)
        ensures
            r == self.spec_forward(),
    {
        self.caret >= self.tail
    }

    pub fn backward(&self) -> (r: bool)
        ensures
            r == self.spec_backward(),
    {
        self.caret < self.tail
    }

    /// Whether the region runs backward or is a cursor on one byte.
    pub fn leans_backward(&self) -> (r: bool)
        ensures
            r == self.spec_leans_backward(),
    {
        self.caret <= self.tail
    }

    pub fn to_backward(self) -> (r: SelRegion)
        ensures
            r == self.spec_to_backward(),
    {
        SelRegion::new(self.min(), self.max())
    }

    pub fn to_forward(self) -> (r: SelRegion)
        ensures
            r == self.spec_to_forward(),
    {
        SelRegion::new(self.max(), self.min())
    }

    /// Whether `merge` accepts the pair.
    pub fn mergeable(&self, other: &SelRegion) -> (r: bool)
        ensures
            r == self.can_merge(*other),
    {
        let both_forward = self.forward() && other.forward();
        let both_backward = self.leans_backward() && other.leans_backward();
        (both_forward || both_backward) && (!(both_forward && both_backward) || self.caret
            == other.caret)
    }

    /// Merges two regions that run in the same direction.
    pub fn merge(&self, other: &SelRegion) -> (r: SelRegion)
        requires
            self.can_merge(*other),
        ensures
            r == self.spec_merge(*other),
            r.spec_min() == int_min(self.spec_min(), other.spec_min()),
            r.spec_max() == int_max(self.spec_max(), other.spec_max()),
    {
        let both_forward = self.forward() && other.forward();
        let both_backward = self.leans_backward() && other.leans_backward();
        let main = self.main || other.main;
        if both_forward && both_backward {
            SelRegion { caret: self.caret, tail: self.tail, main }
        } else if both_forward {
            SelRegion {
                caret: usize_max(self.caret, other.caret),
                tail: usize_min(self.tail, other.tail),
                main,
            }
        } else {
            SelRegion {
                caret: usize_min(self.caret, other.caret),
                tail: usize_max(self.tail, other.tail),
                main,
            }
        }
    }

    pub fn inherit_direction(&self, parent: &SelRegion) -> (r: SelRegion)
        ensures
            r == self.spec_inherit_direction(*parent),
    {
        if parent.forward() {
            self.to_forward()
        } else {
            self.to_backward()
        }
    }

    /// Cuts the bytes `start..=end` out of the region. What remains before and
    /// after the cut comes back, each piece running as the region does.
    pub fn split_at_region(&self, start: usize, end: usize) -> (r: (
        Option<SelRegion>,
        Option<SelRegion>,
    ))
        ensures
            r.0 == self.left_piece(start as int),
            r.1 == self.right_piece(end as int),
    {
        let left = if start <= self.min() {
            None
        } else {
            Some(SelRegion::new(self.min(), start - 1).inherit_direction(self))
        };
        let right = if end >= self.max() {
            None
        } else {
            Some(SelRegion::new(end + 1, self.max()).inherit_direction(self))
        };
        (left, right)
    }
}


/// What a selection holds: its regions in order and the index of the main one.
pub struct SelectionView {
    pub regions: Seq<SelRegion>,
    pub main: int,
}

/// Each region ends before any later one starts.
pub open spec fn sorted_disjoint(regions: Seq<SelRegion>) -> bool {
    forall|i: int, j: int|
        0 <= i < j < regions.len() ==> (#[trigger] regions[i]).spec_max() < (
        #[trigger] regions[j]).spec_min()
}

/// No region carries the main flag.
pub open spec fn all_plain(regions: Seq<SelRegion>) -> bool {
    forall|i: int| 0 <= i < regions.len() ==> !(#[trigger] regions[i]).main
}

/// Every caret and tail lies in `[0, len]`.
pub open spec fn all_bounded(regions: Seq<SelRegion>, len: int) -> bool {
    forall|i: int| 0 <= i < regions.len() ==> (#[trigger] regions[i]).bounded(len)
}

/// The same spans, flagged so that exactly the region at `main` is main.
pub open spec fn with_main(regions: Seq<SelRegion>, main: int) -> Seq<SelRegion> {
    Seq::new(regions.len(), |i: int| regions[i].flagged(i == main))
}

/// The sum of the lengths of the first `n` regions.
pub open spec fn total_len(regions: Seq<SelRegion>, n: int) -> int
    decreases n,
{
    if n <= 0 {
        0
    } else {
        total_len(regions, n - 1) + regions[n - 1].spec_len()
    }
}

/// The regions of an image without their flags.
pub open spec fn plains(image: Seq<SelRegion>) -> Seq<SelRegion> {
    Seq::new(image.len(), |i: int| image[i].plain())
}

/// The regions of the first `n` images, one image after the other, without
/// their flags.
pub open spec fn flat(images: Seq<Seq<SelRegion>>, n: int) -> Seq<SelRegion>
    decreases n,
{
    if n <= 0 {
        Seq::empty()
    } else {
        flat(images, n - 1) + plains(images[n - 1])
    }
}

/// The image that says which region becomes the main one: the last image
/// of the regions up to the main one, or the first image there is where
/// these regions have none.
pub open spec fn marker(images: Seq<Seq<SelRegion>>, main: int) -> int {
    let upto = flat(images, main + 1).len();
    if upto > 0 {
        upto - 1
    } else {
        0
    }
}

/// All images in a row, the one that says which region becomes the main one
/// flagged.
pub open spec fn marked(images: Seq<Seq<SelRegion>>, main: int) -> Seq<SelRegion> {
    with_main(flat(images, images.len() as int), marker(images, main))
}

/// Any two regions of the list that have a byte in common run in the same
/// direction.
pub open spec fn agreeing(list: Seq<SelRegion>) -> bool {
    forall|i: int, j: int|
        0 <= i < list.len() && 0 <= j < list.len() && (#[trigger] list[i]).spec_shares(
            #[trigger] list[j],
        ) ==> list[i].spec_agrees(list[j])
}

/// The regions are in the order of where they start.
pub open spec fn by_min(list: Seq<SelRegion>) -> bool {
    forall|i: int, j: int|
        0 <= i < j < list.len() ==> (#[trigger] list[i]).spec_min() <= (
        #[trigger] list[j]).spec_min()
}

/// `r` put into a list that is in order, behind the regions that start no
/// later than it does.
pub open spec fn placed(sorted: Seq<SelRegion>, r: SelRegion) -> Seq<SelRegion>
    decreases sorted.len(),
{
    if sorted.len() == 0 || sorted.last().spec_min() <= r.spec_min() {
        sorted.push(r)
    } else {
        placed(sorted.drop_last(), r).push(sorted.last())
    }
}

/// The first `n` regions of a list in the order of where they start; of
/// two that start at the same byte the one that came first stays first.
pub open spec fn ordered(list: Seq<SelRegion>, n: int) -> Seq<SelRegion>
    decreases n,
{
    if n <= 0 {
        Seq::empty()
    } else {
        placed(ordered(list, n - 1), list[n - 1])
    }
}

/// The first `n` regions of a list in order, swept from left to right: a
/// region that the one before it reaches into is merged with it.
pub open spec fn joined(sorted: Seq<SelRegion>, n: int) -> Seq<SelRegion>
    decreases n,
{
    if n <= 0 {
        Seq::empty()
    } else {
        let before = joined(sorted, n - 1);
        if before.len() > 0 && before.last().spec_overlaps(sorted[n - 1]) {
            before.drop_last().push(before.last().spec_merge(sorted[n - 1]))
        } else {
            before.push(sorted[n - 1])
        }
    }
}

/// Whether every merge of the sweep over the first `n` regions joins
/// regions that run in the same direction.
pub open spec fn joins_ok(sorted: Seq<SelRegion>, n: int) -> bool
    decreases n,
{
    if n <= 0 {
        true
    } else {
        let before = joined(sorted, n - 1);
        joins_ok(sorted, n - 1) && (before.len() > 0 && before.last().spec_overlaps(sorted[n - 1])
            ==> before.last().can_merge(sorted[n - 1]))
    }
}

/// How many of the first `n` regions are flagged as main.
pub open spec fn flags(list: Seq<SelRegion>, n: int) -> int
    decreases n,
{
    if n <= 0 {
        0
    } else {
        flags(list, n - 1) + if list[n - 1].main {
            1int
        } else {
            0int
        }
    }
}

/// The index of the last of the first `n` regions that is flagged as main;
/// 0 if none is.
pub open spec fn flag_index(list: Seq<SelRegion>, n: int) -> int
    decreases n,
{
    if n <= 0 {
        0
    } else if list[n - 1].main {
        n - 1
    } else {
        flag_index(list, n - 1)
    }
}

/// The images hold a region.
pub open spec fn images_present(images: Seq<Seq<SelRegion>>) -> bool {
    flat(images, images.len() as int).len() > 0
}

/// Any two regions of the images that have a byte in common run in the
/// same direction.
pub open spec fn images_agree(images: Seq<Seq<SelRegion>>) -> bool {
    agreeing(flat(images, images.len() as int))
}

/// The views of a list of vectors.
pub open spec fn views(images: Seq<Vec<SelRegion>>) -> Seq<Seq<SelRegion>> {
    Seq::new(images.len(), |i: int| images[i]@)
}

/// Every region of every image lies in `[0, len]`.
pub open spec fn images_bounded(images: Seq<Seq<SelRegion>>, len: int) -> bool {
    forall|i: int| 0 <= i < images.len() ==> all_bounded(#[trigger] images[i], len)
}

impl SelectionView {
    /// Non-empty, ordered and disjoint, with exactly the region at `main`
    /// flagged as main.
    pub open spec fn wf(self) -> bool {
        &&& self.regions.len() > 0
        &&& 0 <= self.main < self.regions.len()
        &&& sorted_disjoint(self.regions)
        &&& forall|i: int|
            0 <= i < self.regions.len() ==> (#[trigger] self.regions[i]).main == (i == self.main)
    }

    /// Every caret and tail lies in `[0, len]`.
    pub open spec fn bounded(self, len: int) -> bool {
        all_bounded(self.regions, len)
    }

    /// The number of bytes selected.
    pub open spec fn len_bytes(self) -> int {
        total_len(self.regions, self.regions.len() as int)
    }

    /// The selection that maps the regions to `images`: the images in the
    /// order of where they start, those merged that have bytes in common.
    /// The region that took in the last image of the regions up to the main
    /// one is the main one.
    pub open spec fn mapped(self, images: Seq<Seq<SelRegion>>) -> SelectionView {
        let list = marked(images, self.main);
        let regions = joined(ordered(list, list.len() as int), list.len() as int);
        SelectionView { regions, main: flag_index(regions, regions.len() as int) }
    }

    /// Whether `images` holds one image for each region, a region in all,
    /// and no merge joins regions that run in different directions.
    pub open spec fn can_map(self, images: Seq<Seq<SelRegion>>) -> bool {
        let list = marked(images, self.main);
        &&& images.len() == self.regions.len()
        &&& images_present(images)
        &&& joins_ok(ordered(list, list.len() as int), list.len() as int)
    }

    /// The selection of one cursor on the first byte.
    pub open spec fn initial() -> SelectionView {
        SelectionView { regions: seq![SelRegion { caret: 0, tail: 0, main: true }], main: 0 }
    }
}

/// The merge of two regions that can be merged spans both, lies where
/// they lie, and is main if one of them is.
pub proof fn lemma_merge_hull(a: SelRegion, b: SelRegion, len: int)
    requires
        a.can_merge(b),
    ensures
        a.spec_merge(b).spec_min() == int_min(a.spec_min(), b.spec_min()),
        a.spec_merge(b).spec_max() == int_max(a.spec_max(), b.spec_max()),
        a.spec_merge(b).main == (a.main || b.main),
        a.bounded(len) && b.bounded(len) ==> a.spec_merge(b).bounded(len),
{
}

/// How many regions are flagged, and which is the last of them, depends on
/// the flags of the regions counted only.
pub proof fn lemma_flags_prefix(a: Seq<SelRegion>, b: Seq<SelRegion>, n: int)
    requires
        0 <= n <= a.len(),
        n <= b.len(),
        forall|i: int| 0 <= i < n ==> (#[trigger] a[i]).main == b[i].main,
    ensures
        flags(a, n) == flags(b, n),
        flag_index(a, n) == flag_index(b, n),
    decreases n,
{
    if n > 0 {
        lemma_flags_prefix(a, b, n - 1);
    }
}

/// Where no region is flagged, none is; where one is, it is the one at the
/// flag index and no other. More regions hold no fewer flagged ones.
pub proof fn lemma_flagged(list: Seq<SelRegion>, k: int, n: int)
    requires
        0 <= k <= n <= list.len(),
    ensures
        0 <= flags(list, k) <= flags(list, n),
        flags(list, n) == 0 ==> forall|i: int| 0 <= i < n ==> !(#[trigger] list[i]).main,
        flags(list, n) == 1 ==> 0 <= flag_index(list, n) < n && forall|i: int|
            0 <= i < n ==> (#[trigger] list[i]).main == (i == flag_index(list, n)),
    decreases n,
{
    if n > 0 {
        if k < n {
            lemma_flagged(list, k, n - 1);
        } else {
            lemma_flagged(list, k - 1, n - 1);
        }
    }
}

/// Exactly the region at `main` is flagged once the flags are set anew.
pub proof fn lemma_with_main_flags(list: Seq<SelRegion>, main: int, n: int)
    requires
        0 <= n <= list.len(),
    ensures
        flags(with_main(list, main), n) == if 0 <= main < n {
            1int
        } else {
            0int
        },
    decreases n,
{
    if n > 0 {
        lemma_with_main_flags(list, main, n - 1);
    }
}

/// The regions of the images in a row carry no flag, and lie where the
/// images lie.
pub proof fn lemma_flat(images: Seq<Seq<SelRegion>>, n: int, len: int)
    requires
        0 <= n <= images.len(),
    ensures
        all_plain(flat(images, n)),
        images_bounded(images, len) ==> all_bounded(flat(images, n), len),
        n > 0 ==> flat(images, n).len() >= flat(images, n - 1).len(),
    decreases n,
{
    if n > 0 {
        lemma_flat(images, n - 1, len);
        let before = flat(images, n - 1);
        let now = flat(images, n);
        if images_bounded(images, len) {
            assert(all_bounded(images[n - 1], len));
            assert forall|i: int| 0 <= i < now.len() implies (#[trigger] now[i]).bounded(len) by {
                if i >= before.len() {
                    assert(images[n - 1][i - before.len()].bounded(len));
                } else {
                    assert(before[i].bounded(len));
                }
            }
        }
        assert forall|i: int| 0 <= i < now.len() implies !(#[trigger] now[i]).main by {
            if i < before.len() {
                assert(!before[i].main);
            }
        }
    }
}

/// `x` is one of the first `n` regions of `list`.
pub open spec fn among(list: Seq<SelRegion>, n: int, x: SelRegion) -> bool {
    exists|j: int| 0 <= j < n && list[j] == x
}

/// A region put into a list in order: the list stays in order, holds the
/// region and what it held, and as many flagged regions as both.
pub proof fn lemma_placed(sorted: Seq<SelRegion>, r: SelRegion)
    requires
        by_min(sorted),
    ensures
        by_min(placed(sorted, r)),
        placed(sorted, r).len() == sorted.len() + 1,
        forall|i: int|
            0 <= i < placed(sorted, r).len() ==> (#[trigger] placed(sorted, r)[i]) == r || among(
                sorted,
                sorted.len() as int,
                placed(sorted, r)[i],
            ),
        flags(placed(sorted, r), (sorted.len() + 1) as int) == flags(sorted, sorted.len() as int) + if r.main {
            1int
        } else {
            0int
        },
    decreases sorted.len(),
{
    let n = sorted.len() as int;
    let out = placed(sorted, r);
    if sorted.len() == 0 || sorted.last().spec_min() <= r.spec_min() {
        assert forall|i: int, j: int| 0 <= i < j < out.len() implies (#[trigger] out[i]).spec_min()
            <= (#[trigger] out[j]).spec_min() by {
            if j == n {
                if i < n - 1 {
                    assert(sorted[i].spec_min() <= sorted[n - 1].spec_min());
                }
            } else {
                assert(sorted[i].spec_min() <= sorted[j].spec_min());
            }
        }
        assert forall|i: int| 0 <= i < out.len() implies (#[trigger] out[i]) == r || among(
            sorted,
            n,
            out[i],
        ) by {
            if i < n {
                assert(sorted[i] == out[i]);
            }
        }
        lemma_flags_prefix(out, sorted, n);
    } else {
        let rest = sorted.drop_last();
        let last = sorted.last();
        assert forall|i: int, j: int| 0 <= i < j < rest.len() implies (#[trigger] rest[i]).spec_min()
            <= (#[trigger] rest[j]).spec_min() by {
            assert(sorted[i].spec_min() <= sorted[j].spec_min());
        }
        lemma_placed(rest, r);
        let p = placed(rest, r);
        assert forall|i: int| 0 <= i < out.len() implies (#[trigger] out[i]) == r || among(
            sorted,
            n,
            out[i],
        ) by {
            if i < n {
                if p[i] != r {
                    let j = choose|j: int| 0 <= j < rest.len() && rest[j] == p[i];
                    assert(sorted[j] == out[i]);
                }
            } else {
                assert(sorted[n - 1] == out[i]);
            }
        }
        assert forall|i: int, j: int| 0 <= i < j < out.len() implies (#[trigger] out[i]).spec_min()
            <= (#[trigger] out[j]).spec_min() by {
            if j == n {
                if p[i] != r {
                    let k = choose|k: int| 0 <= k < rest.len() && rest[k] == p[i];
                    assert(sorted[k].spec_min() <= sorted[n - 1].spec_min());
                }
            } else {
                assert(p[i].spec_min() <= p[j].spec_min());
            }
        }
        lemma_flags_prefix(out, p, n);
        lemma_flags_prefix(rest, sorted, n - 1);
    }
}

/// Where a region goes when it is put into a list in order: behind the
/// last region that starts no later than it does.
pub proof fn lemma_placed_at(sorted: Seq<SelRegion>, r: SelRegion, pos: int)
    requires
        0 <= pos <= sorted.len(),
        pos > 0 ==> sorted[pos - 1].spec_min() <= r.spec_min(),
        forall|k: int| pos <= k < sorted.len() ==> (#[trigger] sorted[k]).spec_min() > r.spec_min(),
    ensures
        placed(sorted, r) == sorted.insert(pos, r),
    decreases sorted.len(),
{
    if sorted.len() == 0 || sorted.last().spec_min() <= r.spec_min() {
        if sorted.len() > 0 && pos < sorted.len() {
            assert(sorted[sorted.len() - 1].spec_min() > r.spec_min());
        }
        assert(placed(sorted, r) =~= sorted.insert(pos, r));
    } else {
        let rest = sorted.drop_last();
        assert(pos < sorted.len());
        assert forall|k: int| pos <= k < rest.len() implies (#[trigger] rest[k]).spec_min()
            > r.spec_min() by {
            assert(sorted[k].spec_min() > r.spec_min());
        }
        lemma_placed_at(rest, r, pos);
        assert(placed(sorted, r) =~= sorted.insert(pos, r));
    }
}

/// The regions of a list in order: they are in order, each is one of the
/// list, and as many are flagged as in the list.
pub proof fn lemma_ordered(list: Seq<SelRegion>, n: int)
    requires
        0 <= n <= list.len(),
    ensures
        by_min(ordered(list, n)),
        ordered(list, n).len() == n,
        forall|i: int| 0 <= i < n ==> among(list, n, #[trigger] ordered(list, n)[i]),
        flags(ordered(list, n), n) == flags(list, n),
    decreases n,
{
    if n > 0 {
        lemma_ordered(list, n - 1);
        let before = ordered(list, n - 1);
        let now = ordered(list, n);
        lemma_placed(before, list[n - 1]);
        assert forall|i: int| 0 <= i < n implies among(list, n, #[trigger] now[i]) by {
            if now[i] != list[n - 1] {
                let k = choose|k: int| 0 <= k < before.len() && before[k] == now[i];
                assert(among(list, n - 1, before[k]));
                let j = choose|j: int| 0 <= j < n - 1 && list[j] == before[k];
                assert(list[j] == now[i]);
            } else {
                assert(list[n - 1] == now[i]);
            }
        }
    }
}

/// Regions that agree and lie inside a bound still do once they are in
/// order.
pub proof fn lemma_ordered_keeps(list: Seq<SelRegion>, len: int)
    ensures
        agreeing(list) ==> agreeing(ordered(list, list.len() as int)),
        all_bounded(list, len) ==> all_bounded(ordered(list, list.len() as int), len),
{
    let n = list.len() as int;
    let o = ordered(list, n);
    lemma_ordered(list, n);
    if agreeing(list) {
        assert forall|i: int, j: int|
            0 <= i < o.len() && 0 <= j < o.len() && (#[trigger] o[i]).spec_shares(
                #[trigger] o[j],
            ) implies o[i].spec_agrees(o[j]) by {
            assert(among(list, n, o[i]));
            assert(among(list, n, o[j]));
            let a = choose|a: int| 0 <= a < n && list[a] == o[i];
            let b = choose|b: int| 0 <= b < n && list[b] == o[j];
            assert(list[a].spec_shares(list[b]));
        }
    }
    if all_bounded(list, len) {
        assert forall|i: int| 0 <= i < o.len() implies (#[trigger] o[i]).bounded(len) by {
            assert(among(list, n, o[i]));
            let a = choose|a: int| 0 <= a < n && list[a] == o[i];
            assert(list[a].bounded(len));
        }
    }
}

/// Where more regions can be swept, so can fewer.
pub proof fn lemma_joins_ok_prefix(sorted: Seq<SelRegion>, k: int, n: int)
    requires
        0 <= k <= n,
    ensures
        joins_ok(sorted, n) ==> joins_ok(sorted, k),
    decreases n - k,
{
    if k < n {
        lemma_joins_ok_prefix(sorted, k + 1, n);
    }
}

/// The sweep over regions in order leaves regions that are ordered and
/// disjoint, at least one, inside the bound that the regions are in, and
/// as many of them flagged as were, if at most one was.
pub proof fn lemma_joined(sorted: Seq<SelRegion>, n: int, len: int)
    requires
        by_min(sorted),
        0 <= n <= sorted.len(),
        joins_ok(sorted, n),
        flags(sorted, sorted.len() as int) <= 1,
    ensures
        sorted_disjoint(joined(sorted, n)),
        joined(sorted, n).len() <= n,
        n > 0 ==> joined(sorted, n).len() > 0 && joined(sorted, n).last().spec_min() <= sorted[n
            - 1].spec_min(),
        flags(joined(sorted, n), joined(sorted, n).len() as int) == flags(sorted, n),
        all_bounded(sorted, len) ==> all_bounded(joined(sorted, n), len),
    decreases n,
{
    if n > 0 {
        lemma_joined(sorted, n - 1, len);
        lemma_flagged(sorted, n, sorted.len() as int);
        lemma_flagged(sorted, n - 1, n);
        let before = joined(sorted, n - 1);
        let out = joined(sorted, n);
        let r = sorted[n - 1];
        let blen = before.len() as int;
        if n > 1 {
            assert(sorted[n - 2].spec_min() <= sorted[n - 1].spec_min());
        }
        if before.len() > 0 && before.last().spec_overlaps(r) {
            let last = before.last();
            let m = last.spec_merge(r);
            lemma_merge_hull(last, r, len);
            assert forall|i: int, j: int| 0 <= i < j < out.len() implies (#[trigger] out[i]).spec_max()
                < (#[trigger] out[j]).spec_min() by {
                if j == blen - 1 {
                    assert(before[i].spec_max() < before[blen - 1].spec_min());
                } else {
                    assert(before[i].spec_max() < before[j].spec_min());
                }
            }
            lemma_flags_prefix(out, before, blen - 1);
            lemma_flagged(before, blen, blen);
            if all_bounded(sorted, len) {
                assert(r.bounded(len));
                assert(last.bounded(len));
                assert forall|i: int| 0 <= i < out.len() implies (#[trigger] out[i]).bounded(
                    len,
                ) by {
                    if i < blen - 1 {
                        assert(before[i].bounded(len));
                    }
                }
            }
        } else {
            assert forall|i: int, j: int| 0 <= i < j < out.len() implies (#[trigger] out[i]).spec_max()
                < (#[trigger] out[j]).spec_min() by {
                if j == blen {
                    if i < blen - 1 {
                        assert(before[i].spec_max() < before[blen - 1].spec_min());
                    }
                } else {
                    assert(before[i].spec_max() < before[j].spec_min());
                }
            }
            lemma_flags_prefix(out, before, blen);
            if all_bounded(sorted, len) {
                assert(r.bounded(len));
                assert forall|i: int| 0 <= i < out.len() implies (#[trigger] out[i]).bounded(
                    len,
                ) by {
                    if i < blen {
                        assert(before[i].bounded(len));
                    }
                }
            }
        }
    }
}

/// The region among the first `n` that reaches as far as the last region
/// of the sweep does.
pub open spec fn reach(sorted: Seq<SelRegion>, n: int) -> int
    decreases n,
{
    if n <= 1 {
        0
    } else {
        let before = joined(sorted, n - 1);
        if before.len() > 0 && before.last().spec_overlaps(sorted[n - 1]) && sorted[n
            - 1].spec_max() <= before.last().spec_max() {
            reach(sorted, n - 1)
        } else {
            n - 1
        }
    }
}

/// Regions in order of which any two that have a byte in common run in the
/// same direction can be swept: no merge joins regions that run in
/// different directions.
pub proof fn lemma_agreeing_joins(sorted: Seq<SelRegion>, n: int)
    requires
        by_min(sorted),
        agreeing(sorted),
        0 <= n <= sorted.len(),
    ensures
        joins_ok(sorted, n),
        n > 0 ==> ({
            let last = joined(sorted, n).last();
            let top = sorted[reach(sorted, n)];
            &&& joined(sorted, n).len() > 0
            &&& 0 <= reach(sorted, n) < n
            &&& top.spec_max() == last.spec_max()
            &&& top.caret > top.tail ==> last.caret > last.tail
            &&& top.caret < top.tail ==> last.caret < last.tail
            &&& top.caret == top.tail ==> last.caret == last.tail
        }),
    decreases n,
{
    if n == 1 {
        assert(joins_ok(sorted, 0));
        assert(joined(sorted, 0) =~= Seq::<SelRegion>::empty());
        assert(joined(sorted, 1) =~= seq![sorted[0]]);
    } else if n > 1 {
        lemma_agreeing_joins(sorted, n - 1);
        let before = joined(sorted, n - 1);
        let last = before.last();
        let r = sorted[n - 1];
        let t = reach(sorted, n - 1);
        let top = sorted[t];
        let out = joined(sorted, n);
        if last.spec_overlaps(r) {
            assert(top.spec_min() <= r.spec_min());
            assert(top.spec_shares(r));
            assert(top.spec_agrees(r));
            assert(last.can_merge(r));
            lemma_merge_hull(last, r, 0);
            let m = last.spec_merge(r);
            assert(out =~= before.drop_last().push(m));
            assert(out.last() == m);
            if r.spec_max() <= last.spec_max() {
                assert(reach(sorted, n) == t);
            } else {
                assert(reach(sorted, n) == n - 1);
            }
        } else {
            assert(out =~= before.push(r));
            assert(out.last() == r);
            assert(reach(sorted, n) == n - 1);
        }
    }
}

/// Flagging the region at `main` of an ordered, disjoint, non-empty list gives
/// a well-formed selection.
pub proof fn lemma_with_main_wf(regions: Seq<SelRegion>, main: int)
    requires
        sorted_disjoint(regions),
        0 <= main < regions.len(),
    ensures
        (SelectionView { regions: with_main(regions, main), main }).wf(),
        forall|len: int| all_bounded(regions, len) ==> all_bounded(with_main(regions, main), len),
{
    let w = with_main(regions, main);
    assert forall|i: int, j: int| 0 <= i < j < w.len() implies (#[trigger] w[i]).spec_max() < (
    #[trigger] w[j]).spec_min() by {
        assert(regions[i].spec_max() < regions[j].spec_min());
    }
    assert forall|len: int| all_bounded(regions, len) implies all_bounded(w, len) by {
        assert forall|i: int| 0 <= i < w.len() implies (#[trigger] w[i]).bounded(len) by {
            assert(regions[i].bounded(len));
        }
    }
}

/// The ordered, non-empty list of disjoint regions that an editor acts on.
#[derive(Debug, PartialEq)]
pub struct Selection {
    regions: Vec<SelRegion>,
    main_selection: usize,
}

impl View for Selection {
    type V = SelectionView;

    closed spec fn view(&self) -> SelectionView {
        SelectionView { regions: self.regions@, main: self.main_selection as int }
    }
}

impl Clone for Selection {
    fn clone(&self) -> (r: Selection)
        ensures
            r@ == self@,
    {
        let mut regions: Vec<SelRegion> = Vec::new();
        let mut i: usize = 0;
        while i < self.regions.len()
            invariant
                i <= self.regions.len(),
                regions@ == self.regions@.take(i as int),
            decreases self.regions.len() - i,
        {
            regions.push(self.regions[i]);
            assert(self.regions@.take(i + 1) == self.regions@.take(i as int).push(
                self.regions@[i as int],
            ));
            i += 1;
        }
        assert(self.regions@.take(i as int) == self.regions@);
        Selection { regions, main_selection: self.main_selection }
    }
}

impl Default for Selection {
    fn default() -> (r: Selection)
        ensures
            r@ == SelectionView::initial(),
            r.wf(),
    {
        Selection::new()
    }
}

/// Rewrites the flags so that exactly the region at `main` is main.
fn flag_main(regions: &mut Vec<SelRegion>, main: usize)
    ensures
        final(regions)@ == with_main(old(regions)@, main as int),
{
    let mut i: usize = 0;
    while i < regions.len()
        invariant
            i <= regions.len(),
            regions.len() == old(regions).len(),
            forall|j: int| 0 <= j < i ==> #[trigger] regions@[j] == old(regions)@[j].flagged(j == main),
            forall|j: int| i <= j < regions.len() ==> #[trigger] regions@[j] == old(regions)@[j],
        decreases regions.len() - i,
    {
        let r = regions[i];
        regions.set(i, SelRegion { caret: r.caret, tail: r.tail, main: i == main });
        i += 1;
    }
    assert(regions@ =~= with_main(old(regions)@, main as int));
}

/// The regions of all images in a row, without their flags, and how many
/// of them are images of the regions up to the one at `main`.
fn flatten(images: &Vec<Vec<SelRegion>>, main: usize) -> (r: (Vec<SelRegion>, usize))
    requires
        main < images.len(),
    ensures
        r.0@ == flat(views(images@), images.len() as int),
        r.1 == flat(views(images@), main + 1).len(),
{
    let ghost ims = views(images@);
    let mut list: Vec<SelRegion> = Vec::new();
    let mut upto: usize = 0;
    let mut i: usize = 0;
    while i < images.len()
        invariant
            i <= images.len(),
            main < images.len(),
            ims == views(images@),
            list@ == flat(ims, i as int),
            i > main ==> upto == flat(ims, main + 1).len(),
        decreases images.len() - i,
    {
        let image = &images[i];
        assert(ims[i as int] == image@);
        let mut k: usize = 0;
        while k < image.len()
            invariant
                k <= image.len(),
                list@ == flat(ims, i as int) + plains(image@).subrange(0, k as int),
            decreases image.len() - k,
        {
            let r = image[k];
            list.push(SelRegion { caret: r.caret, tail: r.tail, main: false });
            assert(list@ =~= flat(ims, i as int) + plains(image@).subrange(0, k + 1));
            k += 1;
        }
        assert(plains(image@).subrange(0, image@.len() as int) =~= plains(image@));
        if i == main {
            upto = list.len();
        }
        i += 1;
    }
    (list, upto)
}

/// The regions in the order of where they start.
fn in_order(list: &Vec<SelRegion>) -> (r: Vec<SelRegion>)
    ensures
        r@ == ordered(list@, list@.len() as int),
{
    let mut sorted: Vec<SelRegion> = Vec::new();
    let mut i: usize = 0;
    while i < list.len()
        invariant
            i <= list.len(),
            sorted@ == ordered(list@, i as int),
        decreases list.len() - i,
    {
        let r = list[i];
        let mut pos: usize = sorted.len();
        while pos > 0 && sorted[pos - 1].min() > r.min()
            invariant
                pos <= sorted.len(),
                forall|k: int|
                    pos <= k < sorted@.len() ==> (#[trigger] sorted@[k]).spec_min() > r.spec_min(),
            decreases pos,
        {
            pos -= 1;
        }
        proof {
            lemma_placed_at(sorted@, r, pos as int);
        }
        sorted.insert(pos, r);
        i += 1;
    }
    sorted
}

/// The sweep over regions in order. `None` where a merge would join
/// regions that run in different directions.
fn sweep_sorted(sorted: &Vec<SelRegion>) -> (r: Option<Vec<SelRegion>>)
    ensures
        r is Some == joins_ok(sorted@, sorted@.len() as int),
        r matches Some(out) ==> out@ == joined(sorted@, sorted@.len() as int),
{
    let mut out: Vec<SelRegion> = Vec::new();
    let mut i: usize = 0;
    while i < sorted.len()
        invariant
            i <= sorted.len(),
            joins_ok(sorted@, i as int),
            out@ == joined(sorted@, i as int),
        decreases sorted.len() - i,
    {
        let r = sorted[i];
        if out.len() > 0 && out[out.len() - 1].overlaps(&r) {
            let last = out[out.len() - 1];
            if !last.mergeable(&r) {
                proof {
                    assert(!joins_ok(sorted@, i + 1));
                    lemma_joins_ok_prefix(sorted@, i + 1, sorted@.len() as int);
                }
                return None;
            }
            let ghost before = out@;
            out.pop();
            out.push(last.merge(&r));
            assert(out@ =~= before.drop_last().push(last.spec_merge(r)));
        } else {
            out.push(r);
        }
        i += 1;
    }
    Some(out)
}

/// The index of the last region that is flagged as main.
fn find_flag(regions: &Vec<SelRegion>) -> (r: usize)
    ensures
        r == flag_index(regions@, regions@.len() as int),
{
    let mut n: usize = regions.len();
    while n > 0 && !regions[n - 1].main
        invariant
            n <= regions.len(),
            flag_index(regions@, regions@.len() as int) == flag_index(regions@, n as int),
        decreases n,
    {
        n -= 1;
    }
    if n == 0 {
        0
    } else {
        n - 1
    }
}

/// Puts the images in order and merges those that have bytes in common.
/// Gives the regions, the main one flagged, and its index; or `None` where
/// there is no image or a merge would join regions that run in different
/// directions.
fn rebuild(images: &Vec<Vec<SelRegion>>, main: usize) -> (r: Option<(Vec<SelRegion>, usize)>)
    requires
        main < images.len(),
    ensures
        ({
            let list = marked(views(images@), main as int);
            let regions = joined(ordered(list, list.len() as int), list.len() as int);
            &&& r is Some == (images_present(views(images@)) && joins_ok(
                ordered(list, list.len() as int),
                list.len() as int,
            ))
            &&& r matches Some((out, m)) ==> {
                &&& out@ == regions
                &&& m == flag_index(regions, regions.len() as int)
                &&& (SelectionView { regions, main: m as int }).wf()
                &&& forall|len: int|
                    images_bounded(views(images@), len) ==> all_bounded(out@, len)
            }
        }),
{
    let ghost ims = views(images@);
    let (mut list, upto) = flatten(images, main);
    if list.len() == 0 {
        return None;
    }
    let mark: usize = if upto > 0 {
        upto - 1
    } else {
        0
    };
    let ghost plain_list = list@;
    proof {
        lemma_flat(ims, ims.len() as int, 0);
        lemma_flat_grows(ims, main + 1, ims.len() as int);
    }
    let marked_one = list[mark];
    list.set(mark, SelRegion { caret: marked_one.caret, tail: marked_one.tail, main: true });
    assert(list@ =~= marked(ims, main as int));
    let sorted = in_order(&list);
    proof {
        lemma_ordered(list@, list@.len() as int);
    }
    let swept = sweep_sorted(&sorted);
    match swept {
        Some(out) => {
            let m = find_flag(&out);
            proof {
                let n = list@.len() as int;
                lemma_ordered(list@, n);
                lemma_with_main_flags(plain_list, mark as int, n);
                lemma_joined(sorted@, n, 0);
                lemma_flagged(out@, out@.len() as int, out@.len() as int);
                assert forall|len: int| images_bounded(ims, len) implies all_bounded(
                    out@,
                    len,
                ) by {
                    lemma_flat(ims, ims.len() as int, len);
                    assert forall|i: int| 0 <= i < list@.len() implies (#[trigger] list@[i]).bounded(
                        len,
                    ) by {
                        assert(plain_list[i].bounded(len));
                    }
                    lemma_ordered_keeps(list@, len);
                    lemma_joined(sorted@, n, len);
                }
            }
            Some((out, m))
        },
        None => None,
    }
}

/// More images hold no fewer regions.
pub proof fn lemma_flat_grows(images: Seq<Seq<SelRegion>>, k: int, n: int)
    requires
        0 <= k <= n <= images.len(),
    ensures
        flat(images, k).len() <= flat(images, n).len(),
    decreases n - k,
{
    if k < n {
        lemma_flat_grows(images, k, n - 1);
    }
}

/// Images of which any two regions that have a byte in common run in the
/// same direction can be merged into a selection, if they hold a region.
pub proof fn lemma_agreeing_can_map(selection: SelectionView, images: Seq<Seq<SelRegion>>)
    requires
        images.len() == selection.regions.len(),
        images_present(images),
        images_agree(images),
    ensures
        selection.can_map(images),
{
    let plain_list = flat(images, images.len() as int);
    let list = marked(images, selection.main);
    let n = list.len() as int;
    assert forall|i: int, j: int|
        0 <= i < list.len() && 0 <= j < list.len() && (#[trigger] list[i]).spec_shares(
            #[trigger] list[j],
        ) implies list[i].spec_agrees(list[j]) by {
        assert(plain_list[i].spec_shares(plain_list[j]));
    }
    lemma_ordered(list, n);
    lemma_ordered_keeps(list, 0);
    lemma_agreeing_joins(ordered(list, n), n);
}

/// Cursors on one byte each can always be merged into a selection.
pub proof fn lemma_cursors_can_map(selection: SelectionView, images: Seq<Seq<SelRegion>>)
    requires
        images.len() == selection.regions.len(),
        images_present(images),
        forall|i: int, k: int|
            0 <= i < images.len() && 0 <= k < images[i].len() ==> (#[trigger] images[i][k]).caret
                == images[i][k].tail,
    ensures
        selection.can_map(images),
{
    lemma_flat_cursors(images, images.len() as int);
    lemma_agreeing_can_map(selection, images);
}

/// Images that are cursors give cursors in a row, and these agree.
pub proof fn lemma_flat_cursors(images: Seq<Seq<SelRegion>>, n: int)
    requires
        0 <= n <= images.len(),
        forall|i: int, k: int|
            0 <= i < images.len() && 0 <= k < images[i].len() ==> (#[trigger] images[i][k]).caret
                == images[i][k].tail,
    ensures
        forall|i: int| 0 <= i < flat(images, n).len() ==> (#[trigger] flat(images, n)[i]).caret
            == flat(images, n)[i].tail,
        agreeing(flat(images, n)),
    decreases n,
{
    if n > 0 {
        lemma_flat_cursors(images, n - 1);
        let before = flat(images, n - 1);
        let now = flat(images, n);
        assert forall|i: int| 0 <= i < now.len() implies (#[trigger] now[i]).caret
            == now[i].tail by {
            if i >= before.len() {
                assert(images[n - 1][i - before.len()].caret == images[n - 1][i
                    - before.len()].tail);
            } else {
                assert(before[i].caret == before[i].tail);
            }
        }
    }
}

impl Selection {
    /// Non-empty, ordered and disjoint, with exactly one main region, the one
    /// at the main index.
    pub open spec fn wf(&self) -> bool {
        self@.wf()
    }

    /// A single cursor on the first byte.
    pub fn new() -> (r: Selection)
        ensures
            r@ == SelectionView::initial(),
            r.wf(),
    {
        let mut regions: Vec<SelRegion> = Vec::new();
        regions.push(SelRegion { caret: 0, tail: 0, main: true });
        assert(regions@ =~= SelectionView::initial().regions);
        Selection { regions, main_selection: 0 }
    }

    /// Back to a single cursor on the first byte.
    pub fn clear(&mut self)
        ensures
            final(self)@ == SelectionView::initial(),
            final(self).wf(),
    {
        let mut regions: Vec<SelRegion> = Vec::new();
        regions.push(SelRegion { caret: 0, tail: 0, main: true });
        assert(regions@ =~= SelectionView::initial().regions);
        self.regions = regions;
        self.main_selection = 0;
    }

    /// The number of bytes that the regions cover together.
    pub fn len_bytes(&self) -> (r: usize)
        requires
            self.wf(),
            self@.len_bytes() <= usize::MAX,
        ensures
            r == self@.len_bytes(),
    {
        let mut total: usize = 0;
        let mut i: usize = 0;
        while i < self.regions.len()
            invariant
                i <= self.regions.len(),
                total == total_len(self.regions@, i as int),
                total_len(self.regions@, self.regions.len() as int) <= usize::MAX,
            decreases self.regions.len() - i,
        {
            proof {
                lemma_total_len_monotone(self.regions@, i as int + 1, self.regions.len() as int);
            }
            total = total + self.regions[i].len();
            i += 1;
        }
        total
    }

    /// Keeps only the region at `index`, which becomes the main one.
    pub fn retain(&mut self, index: usize)
        requires
            old(self).wf(),
            index < old(self)@.regions.len(),
        ensures
            final(self).wf(),
            final(self)@ == (SelectionView {
                regions: seq![old(self)@.regions[index as int].flagged(true)],
                main: 0,
            }),
    {
        let r = self.regions[index];
        let mut regions: Vec<SelRegion> = Vec::new();
        regions.push(SelRegion { caret: r.caret, tail: r.tail, main: true });
        assert(regions@ =~= seq![r.flagged(true)]);
        self.regions = regions;
        self.main_selection = 0;
    }

    /// Drops the region at `index`, unless it is the only one. The main index
    /// stays where it is, or moves to the last region if it pointed behind it.
    pub fn remove(&mut self, index: usize)
        requires
            old(self).wf(),
            index < old(self)@.regions.len(),
        ensures
            final(self).wf(),
            old(self)@.regions.len() == 1 ==> final(self)@ == old(self)@,
            old(self)@.regions.len() > 1 ==> final(self)@.main == int_min(
                old(self)@.regions.len() - 2,
                old(self)@.main,
            ) && final(self)@.regions == with_main(
                old(self)@.regions.remove(index as int),
                final(self)@.main,
            ),
    {
        if self.regions.len() == 1 {
            return ;
        }
        let ghost before = self.regions@;
        self.regions.remove(index);
        self.main_selection = usize_min(self.regions.len() - 1, self.main_selection);
        proof {
            let after = self.regions@;
            assert forall|i: int, j: int| 0 <= i < j < after.len() implies (
            #[trigger] after[i]).spec_max() < (#[trigger] after[j]).spec_min() by {
                let bi = if i < index { i } else { i + 1 };
                let bj = if j < index { j } else { j + 1 };
                assert(after[i] == before[bi]);
                assert(after[j] == before[bj]);
            }
            lemma_with_main_wf(after, self.main_selection as int);
        }
        flag_main(&mut self.regions, self.main_selection);
    }

    /// Replaces the selection by one forward region over the whole buffer, or
    /// by a single cursor where the buffer is empty.
    pub fn select_all(&mut self, buf_size: usize)
        ensures
            final(self).wf(),
            final(self)@ == (SelectionView {
                regions: seq![
                    SelRegion {
                        caret: if buf_size == 0 {
                            0
                        } else {
                            (buf_size - 1) as usize
                        },
                        tail: 0,
                        main: true,
                    },
                ],
                main: 0,
            }),
            final(self)@.bounded(buf_size as int),
    {
        let caret: usize = if buf_size == 0 {
            0
        } else {
            buf_size - 1
        };
        let mut regions: Vec<SelRegion> = Vec::new();
        regions.push(SelRegion { caret, tail: 0, main: true });
        assert(regions@ =~= seq![SelRegion { caret, tail: 0, main: true }]);
        self.regions = regions;
        self.main_selection = 0;
    }

    /// The main region.
    pub fn main(&self) -> (r: SelRegion)
        requires
            self.wf(),
        ensures
            r == self@.regions[self@.main],
    {
        self.regions[self.main_selection]
    }

    /// The index of the main region.
    pub fn main_index(&self) -> (r: usize)
        ensures
            r == self@.main,
    {
        self.main_selection
    }

    /// The index of the first region that ends at or after `offset`; the
    /// number of regions if there is none.
    pub fn search(&self, offset: usize) -> (r: usize)
        requires
            self.wf(),
        ensures
            r <= self@.regions.len(),
            forall|i: int| 0 <= i < r ==> (#[trigger] self@.regions[i]).spec_max() < offset,
            forall|i: int|
                r <= i < self@.regions.len() ==> (#[trigger] self@.regions[i]).spec_max() >= offset,
    {
        let mut lo: usize = 0;
        let mut hi: usize = self.regions.len();
        while lo < hi
            invariant
                lo <= hi <= self.regions.len(),
                self.wf(),
                forall|i: int| 0 <= i < lo ==> (#[trigger] self.regions@[i]).spec_max() < offset,
                forall|i: int|
                    hi <= i < self.regions.len() ==> (#[trigger] self.regions@[i]).spec_max()
                        >= offset,
            decreases hi - lo,
        {
            let mid = lo + (hi - lo) / 2;
            if self.regions[mid].max() < offset {
                assert forall|i: int| 0 <= i < mid + 1 implies (
                #[trigger] self.regions@[i]).spec_max() < offset by {
                    if i < mid {
                        assert(self.regions@[i].spec_max() < self.regions@[mid as int].spec_min());
                    }
                }
                lo = mid + 1;
            } else {
                assert forall|i: int| mid <= i < self.regions.len() implies (
                #[trigger] self.regions@[i]).spec_max() >= offset by {
                    if i > mid {
                        assert(self.regions@[mid as int].spec_max() < self.regions@[i].spec_min());
                    }
                }
                hi = mid;
            }
        }
        lo
    }

    /// The regions that touch the bytes `start..=end`, in order.
    pub fn regions_in_range(&self, start: usize, end: usize) -> (r: &[SelRegion])
        requires
            self.wf(),
            start <= end,
        ensures
            exists|first: int, last: int|
                {
                    &&& 0 <= first <= last <= self@.regions.len()
                    &&& r@ == self@.regions.subrange(first, last)
                    &&& forall|i: int|
                        0 <= i < self@.regions.len() ==> ((first <= i < last) <==> ((
                        #[trigger] self@.regions[i]).spec_max() >= start
                            && self@.regions[i].spec_min() <= end))
                },
    {
        let first = self.search(start);
        let mut last = self.search(end);
        if last < self.regions.len() && self.regions[last].min() <= end {
            last += 1;
        }
        proof {
            assert forall|i: int| 0 <= i < self.regions@.len() implies ((first <= i < last) <==> ((
            #[trigger] self.regions@[i]).spec_max() >= start && self.regions@[i].spec_min()
                <= end)) by {
                if i > last && last < self.regions@.len() {
                    assert(self.regions@[last as int].spec_max() < self.regions@[i].spec_min());
                }
                if i >= last && last > 0 && i > 0 {
                    assert(self.regions@[last - 1].spec_max() < self.regions@[i].spec_min() || i
                        == last - 1);
                }
            }
        }
        vstd::slice::slice_subrange(self.regions.as_slice(), first, last)
    }

    /// Replaces each region by its images: `images[i]` holds what region
    /// `i` becomes. The images are put in the order of where they start,
    /// and those that have bytes in common are merged. The region that took
    /// in the last image of the regions up to the main one becomes the main
    /// one.
    pub fn map_selections(&mut self, images: Vec<Vec<SelRegion>>)
        requires
            old(self).wf(),
            images@.len() == old(self)@.regions.len(),
            images_present(views(images@)),
            images_agree(views(images@)),
        ensures
            final(self).wf(),
            old(self)@.can_map(views(images@)),
            final(self)@ == old(self)@.mapped(views(images@)),
            forall|len: int|
                images_bounded(views(images@), len) ==> final(self)@.bounded(len),
    {
        proof {
            lemma_agreeing_can_map(self@, views(images@));
        }
        let (out, m) = rebuild(&images, self.main_selection).unwrap();
        self.regions = out;
        self.main_selection = m;
    }

    /// Does what `map_selections` does where the images can be merged, and
    /// says so; otherwise leaves the selection as it is.
    pub fn try_map_selections(&mut self, images: Vec<Vec<SelRegion>>) -> (done: bool)
        requires
            old(self).wf(),
        ensures
            final(self).wf(),
            done == old(self)@.can_map(views(images@)),
            done ==> final(self)@ == old(self)@.mapped(views(images@)),
            !done ==> final(self)@ == old(self)@,
            forall|len: int|
                done && images_bounded(views(images@), len) ==> final(self)@.bounded(len),
    {
        if images.len() != self.regions.len() {
            return false;
        }
        match rebuild(&images, self.main_selection) {
            Some((out, m)) => {
                self.regions = out;
                self.main_selection = m;
                true
            },
            None => false,
        }
    }

    /// The number of regions.
    pub fn len(&self) -> (r: usize)
        ensures
            r == self@.regions.len(),
    {
        self.regions.len()
    }

    /// The caret of the main region.
    pub fn main_cursor_offset(&self) -> (r: usize)
        requires
            self.wf(),
        ensures
            r == self@.regions[self@.main].caret,
    {
        self.regions[self.main_selection].caret
    }

    /// The regions, in order.
    pub fn iter(&self) -> (r: &Vec<SelRegion>)
        ensures
            r@ == self@.regions,
    {
        &self.regions
    }

    /// Moves the main index `count` regions on, wrapping around.
    pub fn select_next(&mut self, count: usize)
        requires
            old(self).wf(),
        ensures
            final(self).wf(),
            final(self)@.main == (old(self)@.main + count) % (old(self)@.regions.len() as int),
            final(self)@.regions == with_main(old(self)@.regions, final(self)@.main),
    {
        let len = self.regions.len();
        let step = count % len;
        let next = if step >= len - self.main_selection {
            step - (len - self.main_selection)
        } else {
            self.main_selection + step
        };
        proof {
            lemma_wrapping_step(self.main_selection as int, count as int, len as int);
            lemma_with_main_wf(self.regions@, next as int);
        }
        self.main_selection = next;
        flag_main(&mut self.regions, next);
    }

    /// Moves the main index `count` regions back, wrapping around.
    pub fn select_prev(&mut self, count: usize)
        requires
            old(self).wf(),
        ensures
            final(self).wf(),
            final(self)@.main == (old(self)@.main + old(self)@.regions.len() - (count as int) % (
            old(self)@.regions.len() as int)) % (old(self)@.regions.len() as int),
            final(self)@.regions == with_main(old(self)@.regions, final(self)@.main),
    {
        let len = self.regions.len();
        let step = count % len;
        let prev = if step > self.main_selection {
            self.main_selection + (len - step)
        } else {
            self.main_selection - step
        };
        proof {
            let m = self.main_selection as int;
            let l = len as int;
            let s = step as int;
            if s > m {
                assert((m + l - s) % l == m + l - s) by (nonlinear_arith)
                    requires
                        0 <= m + l - s < l,
                ;
            } else {
                assert((m + l - s) % l == m - s) by (nonlinear_arith)
                    requires
                        0 <= m - s < l,
                ;
            }
            lemma_with_main_wf(self.regions@, prev as int);
        }
        self.main_selection = prev;
        flag_main(&mut self.regions, prev);
    }
}

/// The lengths of regions add up: the sum over fewer regions is no larger.
pub proof fn lemma_total_len_monotone(regions: Seq<SelRegion>, k: int, n: int)
    requires
        0 <= k <= n,
    ensures
        0 <= total_len(regions, k) <= total_len(regions, n),
    decreases n,
{
    if n > 0 {
        if k < n {
            lemma_total_len_monotone(regions, k, n - 1);
        } else {
            lemma_total_len_monotone(regions, k - 1, n - 1);
        }
    }
}

/// Stepping `count` on from `m` modulo `l`, computed without leaving `[0, 2l)`.
proof fn lemma_wrapping_step(m: int, count: int, l: int)
    requires
        0 <= m < l,
        0 <= count,
    ensures
        (m + count) % l == if count % l >= l - m {
            count % l - (l - m)
        } else {
            m + count % l
        },
{
    let s = count % l;
    let q = count / l;
    assert(count == q * l + s && 0 <= s < l) by (nonlinear_arith)
        requires
            s == count % l,
            q == count / l,
            l > 0,
    ;
    if s >= l - m {
        assert((m + count) % l == m + s - l) by (nonlinear_arith)
            requires
                count == q * l + s,
                0 <= m + s - l < l,
        ;
    } else {
        assert((m + count) % l == m + s) by (nonlinear_arith)
            requires
                count == q * l + s,
                0 <= m + s < l,
        ;
    }
}


/// Where an offset of the old document lies after an edit, moved on by
/// `offset` and kept inside the new document. The offset past the last byte
/// of the old document lies past the last byte of the new one.
pub open spec fn shifted(pieces: Seq<Piece>, old_len: int, new_len: int, coord: int, offset: int) -> int {
    let moved = if coord == old_len {
        new_len
    } else {
        int_min(new_len, transformed(pieces, coord, true))
    };
    int_max(0, int_min(new_len, moved + offset))
}

/// What an edit makes of a region: caret and tail move with the bytes they
/// stand on.
pub open spec fn region_image(
    pieces: Seq<Piece>,
    old_len: int,
    new_len: int,
    r: SelRegion,
    caret_offset: int,
    tail_offset: int,
) -> SelRegion {
    SelRegion {
        caret: shifted(pieces, old_len, new_len, r.caret as int, caret_offset) as usize,
        tail: shifted(pieces, old_len, new_len, r.tail as int, tail_offset) as usize,
        main: false,
    }
}

/// What an edit makes of each region, one image for each.
pub open spec fn delta_images(
    regions: Seq<SelRegion>,
    pieces: Seq<Piece>,
    old_len: int,
    new_len: int,
    caret_offset: int,
    tail_offset: int,
) -> Seq<Seq<SelRegion>> {
    Seq::new(
        regions.len(),
        |i: int| seq![region_image(pieces, old_len, new_len, regions[i], caret_offset, tail_offset)],
    )
}

/// A caret that stands past the last byte before an edit stands past the
/// last byte after it, unless it is moved back from there.
pub proof fn lemma_past_the_end_stays(
    pieces: Seq<Piece>,
    old_len: int,
    new_len: int,
    r: SelRegion,
    tail_offset: int,
)
    requires
        r.caret == old_len,
        0 <= new_len <= usize::MAX,
    ensures
        region_image(pieces, old_len, new_len, r, 0, tail_offset).caret == new_len,
{
}

impl SelectionView {
    /// Whether the selection can follow an edit: no two regions that run in
    /// different directions come to overlap.
    pub open spec fn can_follow(
        self,
        pieces: Seq<Piece>,
        old_len: int,
        new_len: int,
        caret_offset: int,
        tail_offset: int,
    ) -> bool {
        new_len == 0 || self.can_map(
            delta_images(self.regions, pieces, old_len, new_len, caret_offset, tail_offset),
        )
    }

    /// The selection after an edit: every region moved with its bytes, and
    /// what overlaps merged. In an empty document a single cursor is left.
    pub open spec fn followed(
        self,
        pieces: Seq<Piece>,
        old_len: int,
        new_len: int,
        caret_offset: int,
        tail_offset: int,
    ) -> SelectionView {
        if new_len == 0 {
            SelectionView::initial()
        } else {
            self.mapped(
                delta_images(self.regions, pieces, old_len, new_len, caret_offset, tail_offset),
            )
        }
    }
}

/// All regions run forward, or all run backward, a cursor going with
/// either.
pub open spec fn uniform(regions: Seq<SelRegion>, forward: bool) -> bool {
    forall|i: int|
        0 <= i < regions.len() ==> if forward {
            (#[trigger] regions[i]).spec_forward()
        } else {
            regions[i].spec_leans_backward()
        }
}

/// An edit keeps offsets in their order: of two offsets of the old
/// document the later one does not come to lie before the other.
pub proof fn lemma_transformed_monotone(
    pieces: Seq<Piece>,
    base_len: int,
    a: int,
    b: int,
    i: int,
    acc: int,
)
    requires
        pieces_fit(pieces, base_len),
        a <= b,
        0 <= i,
    ensures
        transformed_from(pieces, a, true, i, acc) <= transformed_from(pieces, b, true, i, acc),
        acc <= transformed_from(pieces, a, true, i, acc),
    decreases pieces.len() - i,
{
    if i < pieces.len() {
        assert(crate::delta::piece_fits(pieces[i], base_len));
        match pieces[i] {
            Piece::Copy(start, end) => {
                lemma_transformed_monotone(pieces, base_len, a, b, i + 1, acc + end - start);
                lemma_transformed_monotone(pieces, base_len, b, b, i + 1, acc + end - start);
            },
            Piece::Insert(bytes) => {
                lemma_transformed_monotone(pieces, base_len, a, b, i + 1, acc + bytes.len());
            },
        }
    }
}

/// An edit keeps the ends of a region in their order.
pub proof fn lemma_shifted_monotone(
    pieces: Seq<Piece>,
    old_len: int,
    new_len: int,
    a: int,
    b: int,
)
    requires
        pieces_fit(pieces, old_len),
        0 <= a <= b <= old_len,
        0 <= new_len,
    ensures
        shifted(pieces, old_len, new_len, a, 0) <= shifted(pieces, old_len, new_len, b, 0),
{
    lemma_transformed_monotone(pieces, old_len, a, b, 0, 0);
}

/// The regions of images in a row run as the regions of the images do.
pub proof fn lemma_flat_uniform(images: Seq<Seq<SelRegion>>, forward: bool, n: int)
    requires
        0 <= n <= images.len(),
        forall|i: int| 0 <= i < images.len() ==> uniform(#[trigger] images[i], forward),
    ensures
        uniform(flat(images, n), forward),
        agreeing(flat(images, n)),
    decreases n,
{
    if n > 0 {
        lemma_flat_uniform(images, forward, n - 1);
        let before = flat(images, n - 1);
        let now = flat(images, n);
        assert(uniform(images[n - 1], forward));
        assert forall|i: int| 0 <= i < now.len() implies if forward {
            (#[trigger] now[i]).spec_forward()
        } else {
            now[i].spec_leans_backward()
        } by {
            if i >= before.len() {
                let x = images[n - 1][i - before.len()];
                assert(if forward {
                    x.spec_forward()
                } else {
                    x.spec_leans_backward()
                });
            } else {
                assert(if forward {
                    before[i].spec_forward()
                } else {
                    before[i].spec_leans_backward()
                });
            }
        }
    }
}

/// A selection whose regions all run the same way can follow every edit
/// of its document: caret and tail of a region keep their order, so the
/// regions still run the same way and can be merged where they come to
/// overlap.
pub proof fn lemma_uniform_can_follow(
    selection: SelectionView,
    forward: bool,
    pieces: Seq<Piece>,
    old_len: int,
    new_len: int,
)
    requires
        selection.wf(),
        selection.bounded(old_len),
        uniform(selection.regions, forward),
        pieces_fit(pieces, old_len),
        0 <= new_len <= usize::MAX,
    ensures
        selection.can_follow(pieces, old_len, new_len, 0, 0),
{
    if new_len != 0 {
        let images = delta_images(selection.regions, pieces, old_len, new_len, 0, 0);
        assert forall|i: int| 0 <= i < images.len() implies uniform(
            #[trigger] images[i],
            forward,
        ) by {
            let r = selection.regions[i];
            assert(r.bounded(old_len));
            if forward {
                assert(r.spec_forward());
                lemma_shifted_monotone(pieces, old_len, new_len, r.tail as int, r.caret as int);
            } else {
                assert(r.spec_leans_backward());
                lemma_shifted_monotone(pieces, old_len, new_len, r.caret as int, r.tail as int);
            }
        }
        lemma_flat_uniform(images, forward, images.len() as int);
        assert(flat(images, 1) =~= flat(images, 0) + plains(images[0]));
        lemma_flat_grows(images, 1, images.len() as int);
        lemma_agreeing_can_map(selection, images);
    }
}

/// The pieces from the `i`th on copy the document from `from` to its end
/// without a gap: the edit only inserts.
pub open spec fn copies_all(pieces: Seq<Piece>, base_len: int, i: int, from: int) -> bool
    decreases pieces.len() - i,
{
    if i < 0 || i >= pieces.len() {
        from == base_len
    } else {
        match pieces[i] {
            Piece::Copy(start, end) => start == from && copies_all(pieces, base_len, i + 1, end),
            Piece::Insert(bytes) => copies_all(pieces, base_len, i + 1, from),
        }
    }
}

/// The edit only inserts: its pieces copy the whole document in order.
pub open spec fn only_inserting(pieces: Seq<Piece>, base_len: int) -> bool {
    pieces_fit(pieces, base_len) && copies_all(pieces, base_len, 0, 0)
}

/// Under an edit that only inserts, offsets of bytes keep their distance
/// or gain some: of two of them the later one comes to lie behind the
/// other, and before the end of the new document.
pub proof fn lemma_transformed_strict(
    pieces: Seq<Piece>,
    base_len: int,
    a: int,
    b: int,
    i: int,
    from: int,
    acc: int,
)
    requires
        pieces_fit(pieces, base_len),
        copies_all(pieces, base_len, i, from),
        0 <= i <= pieces.len(),
        from <= a <= b < base_len,
    ensures
        a < b ==> transformed_from(pieces, a, true, i, acc) < transformed_from(
            pieces,
            b,
            true,
            i,
            acc,
        ),
        transformed_from(pieces, b, true, i, acc) < acc + pieces_len(pieces, pieces.len() as int)
            - pieces_len(pieces, i),
    decreases pieces.len() - i,
{
    if i < pieces.len() {
        assert(crate::delta::piece_fits(pieces[i], base_len));
        assert(pieces_len(pieces, i + 1) == pieces_len(pieces, i) + piece_len(pieces[i]));
        crate::delta::lemma_pieces_len_monotone(pieces, i + 1, pieces.len() as int, base_len);
        match pieces[i] {
            Piece::Copy(start, end) => {
                if b >= end {
                    if a >= end {
                        lemma_transformed_strict(
                            pieces,
                            base_len,
                            a,
                            b,
                            i + 1,
                            end,
                            acc + end - start,
                        );
                    } else {
                        lemma_transformed_strict(
                            pieces,
                            base_len,
                            b,
                            b,
                            i + 1,
                            end,
                            acc + end - start,
                        );
                        lemma_transformed_monotone(pieces, base_len, b, b, i + 1, acc + end - start);
                    }
                }
            },
            Piece::Insert(bytes) => {
                lemma_transformed_strict(pieces, base_len, a, b, i + 1, from, acc + bytes.len());
            },
        }
    }
}

/// The regions of images of one region each, in a row.
pub proof fn lemma_flat_single(images: Seq<Seq<SelRegion>>, n: int)
    requires
        0 <= n <= images.len(),
        forall|i: int| 0 <= i < images.len() ==> (#[trigger] images[i]).len() == 1,
    ensures
        flat(images, n).len() == n,
        forall|i: int| 0 <= i < n ==> #[trigger] flat(images, n)[i] == images[i][0].plain(),
    decreases n,
{
    if n > 0 {
        lemma_flat_single(images, n - 1);
    }
}

/// A selection can follow every edit that only inserts: regions that are
/// apart stay apart, so nothing is merged.
pub proof fn lemma_inserts_can_follow(
    selection: SelectionView,
    pieces: Seq<Piece>,
    old_len: int,
)
    requires
        selection.wf(),
        selection.bounded(old_len),
        only_inserting(pieces, old_len),
        pieces_len(pieces, pieces.len() as int) <= usize::MAX,
    ensures
        selection.can_follow(
            pieces,
            old_len,
            pieces_len(pieces, pieces.len() as int),
            0,
            0,
        ),
{
    let new_len = pieces_len(pieces, pieces.len() as int);
    crate::delta::lemma_pieces_len_monotone(pieces, 0, pieces.len() as int, old_len);
    if new_len != 0 {
        let regions = selection.regions;
        let images = delta_images(regions, pieces, old_len, new_len, 0, 0);
        let n = images.len() as int;
        lemma_flat_single(images, n);
        let list = flat(images, n);
        assert forall|i: int, j: int|
            0 <= i < list.len() && 0 <= j < list.len() && (#[trigger] list[i]).spec_shares(
                #[trigger] list[j],
            ) implies list[i].spec_agrees(list[j]) by {
            if i != j {
                let (lo, hi) = if i < j {
                    (i, j)
                } else {
                    (j, i)
                };
                let x = regions[lo];
                let y = regions[hi];
                assert(x.bounded(old_len));
                assert(y.bounded(old_len));
                assert(x.spec_max() < y.spec_min());
                let a = x.spec_max();
                let b = y.spec_min();
                lemma_shifted_monotone(pieces, old_len, new_len, x.spec_min(), a);
                lemma_shifted_monotone(pieces, old_len, new_len, b, y.spec_max());
                lemma_transformed_monotone(pieces, old_len, a, a, 0, 0);
                lemma_transformed_strict(pieces, old_len, a, a, 0, 0, 0);
                if b < old_len {
                    lemma_transformed_strict(pieces, old_len, a, b, 0, 0, 0);
                }
                assert(shifted(pieces, old_len, new_len, a, 0) < shifted(
                    pieces,
                    old_len,
                    new_len,
                    b,
                    0,
                ));
                assert(list[lo].spec_max() == shifted(pieces, old_len, new_len, a, 0));
                assert(list[hi].spec_min() == shifted(pieces, old_len, new_len, b, 0));
                assert(!list[lo].spec_shares(list[hi]));
            }
        }
        lemma_agreeing_can_map(selection, images);
    }
}

/// An offset moved by a signed amount and kept inside `[0, limit]`.
fn shift_clamped(moved: usize, offset: isize, limit: usize) -> (r: usize)
    ensures
        r == int_max(0, int_min(limit as int, moved + offset)),
{
    match moved.checked_add_signed(offset) {
        Some(sum) => usize_min(limit, sum),
        None => if offset < 0 {
            0
        } else {
            limit
        },
    }
}

impl Selection {
    /// The image of every region under `delta`.
    fn images_through(
        &self,
        delta: &RopeDelta,
        caret_offset: isize,
        tail_offset: isize,
        max_len: usize,
    ) -> (r: Vec<Vec<SelRegion>>)
        requires
            delta.fits(delta.base_len() as int),
        ensures
            views(r@) == delta_images(
                self@.regions,
                delta.pieces(),
                max_len as int,
                delta.new_len(),
                caret_offset as int,
                tail_offset as int,
            ),
            images_bounded(views(r@), delta.new_len()),
    {
        let new_max_len = delta.new_document_len();
        let ghost want = delta_images(
            self.regions@,
            delta.pieces(),
            max_len as int,
            new_max_len as int,
            caret_offset as int,
            tail_offset as int,
        );
        let mut images: Vec<Vec<SelRegion>> = Vec::new();
        let mut i: usize = 0;
        while i < self.regions.len()
            invariant
                i <= self.regions.len(),
                images@.len() == i,
                delta.fits(delta.base_len() as int),
                new_max_len == delta.new_len(),
                forall|j: int| 0 <= j < i ==> (#[trigger] images@[j])@ == want[j],
                want == delta_images(
                    self.regions@,
                    delta.pieces(),
                    max_len as int,
                    new_max_len as int,
                    caret_offset as int,
                    tail_offset as int,
                ),
            decreases self.regions.len() - i,
        {
            let region = self.regions[i];
            let caret_moved = if max_len == region.caret {
                new_max_len
            } else {
                usize_min(new_max_len, delta.transform(region.caret, true))
            };
            let tail_moved = if max_len == region.tail {
                new_max_len
            } else {
                usize_min(new_max_len, delta.transform(region.tail, true))
            };
            let new_region = SelRegion::new(
                shift_clamped(caret_moved, caret_offset, new_max_len),
                shift_clamped(tail_moved, tail_offset, new_max_len),
            );
            let mut image: Vec<SelRegion> = Vec::new();
            image.push(new_region);
            assert(image@ =~= want[i as int]);
            images.push(image);
            i += 1;
        }
        proof {
            assert(views(images@) =~= want);
            assert forall|i: int| 0 <= i < want.len() implies all_bounded(
                #[trigger] want[i],
                new_max_len as int,
            ) by {
                assert(want[i][0].bounded(new_max_len as int));
            }
        }
        images
    }

    /// Moves every region with its bytes through `delta`, an edit of a
    /// document of `max_len` bytes, and merges what comes to overlap.
    pub fn apply_delta(&mut self, delta: &RopeDelta, max_len: usize)
        requires
            old(self).wf(),
            delta.fits(delta.base_len() as int),
            old(self)@.can_follow(delta.pieces(), max_len as int, delta.new_len(), 0, 0),
        ensures
            final(self).wf(),
            final(self)@ == old(self)@.followed(
                delta.pieces(),
                max_len as int,
                delta.new_len(),
                0,
                0,
            ),
            final(self)@.bounded(delta.new_len()),
    {
        self.apply_delta_offset_carets(delta, 0, 0, max_len)
    }

    /// As `apply_delta`; then every caret is moved on by `caret_offset` and
    /// every tail by `tail_offset`, as far as the new document reaches.
    pub fn apply_delta_offset_carets(
        &mut self,
        delta: &RopeDelta,
        caret_offset: isize,
        tail_offset: isize,
        max_len: usize,
    )
        requires
            old(self).wf(),
            delta.fits(delta.base_len() as int),
            old(self)@.can_follow(
                delta.pieces(),
                max_len as int,
                delta.new_len(),
                caret_offset as int,
                tail_offset as int,
            ),
        ensures
            final(self).wf(),
            final(self)@ == old(self)@.followed(
                delta.pieces(),
                max_len as int,
                delta.new_len(),
                caret_offset as int,
                tail_offset as int,
            ),
            final(self)@.bounded(delta.new_len()),
    {
        let new_max_len = delta.new_document_len();
        if new_max_len == 0 {
            self.clear();
            return ;
        }
        let images = self.images_through(delta, caret_offset, tail_offset, max_len);
        let done = self.try_map_selections(images);
        assert(done);
    }

    /// Does what `apply_delta_offset_carets` does where the selection can
    /// follow the edit, and says so; otherwise leaves the selection as it is.
    pub fn try_apply_delta_offset_carets(
        &mut self,
        delta: &RopeDelta,
        caret_offset: isize,
        tail_offset: isize,
        max_len: usize,
    ) -> (done: bool)
        requires
            old(self).wf(),
            delta.fits(delta.base_len() as int),
        ensures
            final(self).wf(),
            done == old(self)@.can_follow(
                delta.pieces(),
                max_len as int,
                delta.new_len(),
                caret_offset as int,
                tail_offset as int,
            ),
            done ==> final(self)@ == old(self)@.followed(
                delta.pieces(),
                max_len as int,
                delta.new_len(),
                caret_offset as int,
                tail_offset as int,
            ) && final(self)@.bounded(delta.new_len()),
            !done ==> final(self)@ == old(self)@,
    {
        let new_max_len = delta.new_document_len();
        if new_max_len == 0 {
            self.clear();
            return true;
        }
        let images = self.images_through(delta, caret_offset, tail_offset, max_len);
        self.try_map_selections(images)
    }
}

} // verus!
