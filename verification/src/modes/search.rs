//! Patterns of bytes and wildcards, where they occur in the selection, and
//! the prompt in which a pattern is typed.

use crate::buffer::{Buffer, BufferView, Buffers, BuffersView, ByteInterval};
use crate::keymap::{bound_action, Event, KeyCode, KeyEvent, KeyMap};
use crate::modes::collapse::Collapse;
use crate::modes::mode::{layout_kept, Mode, ModeTransition};
use crate::modes::normal::Normal;
use crate::modes::split::Split;
use crate::selection::{int_min, SelRegion};
use crate::text::{hex_byte, hex_digit, hex_pair, hex_value, low_byte, low_byte_of};
use crate::view::view_options::ViewOptions;
use vstd::prelude::*;
use vstd::string::*;

verus! {

/// One place of a pattern: a given byte, or any byte.
#[derive(Debug, PartialEq, Eq, Clone, Copy, Structural)]
pub enum PatternPiece {
    Literal(u8),
    Wildcard,
}

/// A sequence of bytes and wildcards to look for.
#[derive(Debug, PartialEq, Eq, Clone, Default)]
pub struct Pattern {
    pub pieces: Vec<PatternPiece>,
}

/// `needle` occurs in `hay` at `at`.
pub open spec fn occurs_at(hay: Seq<u8>, needle: Seq<u8>, at: int) -> bool {
    0 <= at && at + needle.len() <= hay.len() && hay.subrange(at, at + needle.len()) == needle
}

/// Where `needle` first occurs in `hay` at or behind `from`.
pub open spec fn first_at(hay: Seq<u8>, needle: Seq<u8>, from: int) -> Option<int>
    decreases hay.len() - from,
{
    if from < 0 || needle.len() == 0 || from + needle.len() > hay.len() {
        None
    } else if occurs_at(hay, needle, from) {
        Some(from)
    } else {
        first_at(hay, needle, from + 1)
    }
}

/// The occurrences of `needle` in `hay` from `from` on, from left to right,
/// each starting behind the end of the one before it. The offsets are moved
/// on by `base`.
pub open spec fn occurrences(hay: Seq<u8>, needle: Seq<u8>, from: int, base: int) -> Seq<
    ByteInterval,
>
    decreases hay.len() - from,
{
    if needle.len() == 0 || from < 0 {
        Seq::empty()
    } else {
        proof {
            lemma_first_at(hay, needle, from);
        }
        match first_at(hay, needle, from) {
            None => Seq::empty(),
            Some(at) => seq![
                ByteInterval { start: (base + at) as usize, end: (base + at + needle.len()) as usize },
            ] + occurrences(hay, needle, at + needle.len(), base),
        }
    }
}

/// The first occurrence lies where it is said to lie, and none lies before.
pub proof fn lemma_first_at(hay: Seq<u8>, needle: Seq<u8>, from: int)
    requires
        0 <= from,
        needle.len() > 0,
    ensures
        match first_at(hay, needle, from) {
            Some(at) => from <= at && at + needle.len() <= hay.len() && occurs_at(
                hay,
                needle,
                at,
            ) && forall|j: int| from <= j < at ==> !occurs_at(hay, needle, j),
            None => forall|j: int| from <= j ==> !occurs_at(hay, needle, j),
        },
    decreases hay.len() - from,
{
    if from + needle.len() <= hay.len() && !occurs_at(hay, needle, from) {
        lemma_first_at(hay, needle, from + 1);
    }
}

/// The matches that a regular expression finds in a haystack, from left to
/// right.
pub uninterp spec fn regex_found(expr: Seq<char>, hay: Seq<u8>) -> Seq<ByteInterval>;

/// `ByteSubstring::new` and `ByteSubstring::find`: where `needle` first
/// occurs in `hay`, if it does.
#[verifier::external_body]
fn find_substring(needle: &[u8], hay: &[u8]) -> (r: Option<usize>)
    requires
        needle@.len() > 0,
    ensures
        r matches Some(at) ==> occurs_at(hay@, needle@, at as int),
        r matches Some(at) ==> forall|j: int| 0 <= j < at ==> !occurs_at(hay@, needle@, j),
        r is None ==> forall|j: int| !occurs_at(hay@, needle@, j),
{
    jetscii::ByteSubstring::new(needle).find(hay)
}

/// `RegexBuilder::new`, `RegexBuilder::unicode`, `RegexBuilder::build` and
/// `Regex::find_iter`, all of `regex::bytes`: the matches of the expression
/// in `hay`, without Unicode mode, from left to right. Each lies inside
/// `hay`, and none starts before the end of the one before it. An
/// expression that is refused has no matches.
#[verifier::external_body]
fn regex_matches(expr: &String, hay: &[u8]) -> (r: Vec<ByteInterval>)
    ensures
        r@ == regex_found(expr@, hay@),
        forall|i: int| 0 <= i < r@.len() ==> (#[trigger] r@[i]).start <= r@[i].end <= hay@.len(),
        forall|i: int, j: int|
            0 <= i < j < r@.len() ==> (#[trigger] r@[i]).end <= (#[trigger] r@[j]).start,
{
    let mut builder = regex::bytes::RegexBuilder::new(expr);
    builder.unicode(false);
    match builder.build() {
        Ok(matcher) => matcher.find_iter(hay).map(|m| ByteInterval {
            start: m.start(),
            end: m.end(),
        }).collect(),
        Err(_) => Vec::new(),
    }
}

/// The bytes of the first `n` pieces, if none of them is a wildcard.
pub open spec fn basic_bytes(pieces: Seq<PatternPiece>, n: int) -> Option<Seq<u8>>
    decreases n,
{
    if n <= 0 {
        Some(Seq::empty())
    } else {
        match (basic_bytes(pieces, n - 1), pieces[n - 1]) {
            (Some(bytes), PatternPiece::Literal(c)) => Some(bytes.push(c)),
            _ => None,
        }
    }
}

/// The regular expression for the first `n` pieces: `\x` and two hex
/// digits for a byte, a dot for a wildcard.
pub open spec fn expression(pieces: Seq<PatternPiece>, n: int) -> Seq<char>
    decreases n,
{
    if n <= 0 {
        Seq::empty()
    } else {
        expression(pieces, n - 1) + match pieces[n - 1] {
            PatternPiece::Wildcard => "."@,
            PatternPiece::Literal(c) => "\\x"@ + hex_pair(c),
        }
    }
}

/// The matches behind each other that are not empty, moved on by `base`.
pub open spec fn shifted_matches(found: Seq<ByteInterval>, base: int, n: int) -> Seq<ByteInterval>
    decreases n,
{
    if n <= 0 {
        Seq::empty()
    } else if found[n - 1].start < found[n - 1].end {
        shifted_matches(found, base, n - 1).push(
            ByteInterval {
                start: (base + found[n - 1].start) as usize,
                end: (base + found[n - 1].end) as usize,
            },
        )
    } else {
        shifted_matches(found, base, n - 1)
    }
}

/// The bytes of a region, as far as the document reaches.
pub open spec fn region_bytes(data: Seq<u8>, r: SelRegion) -> Seq<u8> {
    data.subrange(r.spec_min(), int_min(r.spec_max() + 1, data.len() as int))
}

/// Where the pattern matches inside a region: the occurrences of its bytes
/// from left to right without overlap, or, with wildcards, what the regular
/// expression for it finds.
pub open spec fn region_matches(pieces: Seq<PatternPiece>, data: Seq<u8>, r: SelRegion) -> Seq<
    ByteInterval,
> {
    let hay = region_bytes(data, r);
    match basic_bytes(pieces, pieces.len() as int) {
        Some(needle) => occurrences(hay, needle, 0, r.spec_min()),
        None => {
            let found = regex_found(expression(pieces, pieces.len() as int), hay);
            shifted_matches(found, r.spec_min(), found.len() as int)
        },
    }
}

/// Every match is not empty and lies inside `lo..hi`, and the matches come
/// in ascending order without overlap.
pub open spec fn matches_inside(matches: Seq<ByteInterval>, lo: int, hi: int) -> bool {
    &&& forall|i: int|
        0 <= i < matches.len() ==> lo <= (#[trigger] matches[i]).start < matches[i].end <= hi
    &&& forall|i: int, j: int|
        0 <= i < j < matches.len() ==> (#[trigger] matches[i]).end <= (#[trigger] matches[j]).start
}

impl Pattern {
    /// Puts the byte `literal` in at `position` and gives the position
    /// behind it.
    pub fn insert_literal(&mut self, position: usize, literal: u8) -> (r: usize)
        requires
            position <= old(self).pieces@.len(),
            position < usize::MAX,
        ensures
            final(self).pieces@ == old(self).pieces@.insert(
                position as int,
                PatternPiece::Literal(literal),
            ),
            r == position + 1,
    {
        self.pieces.insert(position, PatternPiece::Literal(literal));
        position + 1
    }

    /// Puts the byte `literal` in the place of the piece at `position` and
    /// gives the position behind it.
    pub fn insert_half_literal(&mut self, position: usize, literal: u8) -> (r: usize)
        requires
            position < old(self).pieces@.len(),
            position < usize::MAX,
        ensures
            final(self).pieces@ == old(self).pieces@.update(
                position as int,
                PatternPiece::Literal(literal),
            ),
            r == position + 1,
    {
        self.pieces.set(position, PatternPiece::Literal(literal));
        position + 1
    }

    /// Puts a wildcard in at `position` and gives the position behind it.
    pub fn insert_wildcard(&mut self, position: usize) -> (r: usize)
        requires
            position <= old(self).pieces@.len(),
            position < usize::MAX,
        ensures
            final(self).pieces@ == old(self).pieces@.insert(position as int, PatternPiece::Wildcard),
            r == position + 1,
    {
        self.pieces.insert(position, PatternPiece::Wildcard);
        position + 1
    }

    /// Takes out the piece at `position`, if there is one, and says whether
    /// there was.
    pub fn remove(&mut self, position: usize) -> (r: bool)
        ensures
            r == (position < old(self).pieces@.len()),
            r ==> final(self).pieces@ == old(self).pieces@.remove(position as int),
            !r ==> final(self).pieces@ == old(self).pieces@,
    {
        if position < self.pieces.len() {
            self.pieces.remove(position);
            true
        } else {
            false
        }
    }

    /// The bytes of the pattern, if it has no wildcard.
    pub fn as_basic_slice(&self) -> (r: Option<Vec<u8>>)
        ensures
            match r {
                Some(bytes) => basic_bytes(self.pieces@, self.pieces@.len() as int) == Some(
                    bytes@,
                ) && bytes@.len() == self.pieces@.len(),
                None => basic_bytes(self.pieces@, self.pieces@.len() as int) is None,
            },
    {
        let mut bytes: Vec<u8> = Vec::new();
        let mut i: usize = 0;
        while i < self.pieces.len()
            invariant
                i <= self.pieces.len(),
                bytes@.len() == i,
                basic_bytes(self.pieces@, i as int) == Some(bytes@),
            decreases self.pieces.len() - i,
        {
            match self.pieces[i] {
                PatternPiece::Literal(c) => {
                    bytes.push(c);
                },
                PatternPiece::Wildcard => {
                    proof {
                        lemma_basic_bytes_none(self.pieces@, i as int + 1, self.pieces@.len() as int);
                    }
                    return None;
                },
            }
            i += 1;
        }
        Some(bytes)
    }

    /// The regular expression that stands for the pattern.
    pub fn to_expression(&self) -> (r: String)
        ensures
            r@ == expression(self.pieces@, self.pieces@.len() as int),
    {
        let mut expr = String::new();
        assert(expr@ =~= Seq::<char>::empty());
        let mut i: usize = 0;
        while i < self.pieces.len()
            invariant
                i <= self.pieces.len(),
                expr@ == expression(self.pieces@, i as int),
            decreases self.pieces.len() - i,
        {
            match self.pieces[i] {
                PatternPiece::Wildcard => {
                    expr.append(".");
                },
                PatternPiece::Literal(c) => {
                    expr.append("\\x");
                    let digits = hex_byte(c);
                    expr.append(digits.as_str());
                    assert(expr@ =~= expression(self.pieces@, i as int) + ("\\x"@ + hex_pair(c)));
                },
            }
            i += 1;
        }
        expr
    }

    /// The occurrences of `needle` in `hay`, from left to right without
    /// overlap, moved on by `base`.
    fn occurrences_in(needle: &Vec<u8>, hay: &Vec<u8>, base: usize) -> (r: Vec<ByteInterval>)
        requires
            needle@.len() > 0,
            base + hay@.len() <= usize::MAX,
        ensures
            r@ == occurrences(hay@, needle@, 0, base as int),
            matches_inside(r@, base as int, base + hay@.len()),
    {
        let mut found: Vec<ByteInterval> = Vec::new();
        let mut from: usize = 0;
        loop
            invariant
                from <= hay@.len(),
                needle@.len() > 0,
                base + hay@.len() <= usize::MAX,
                occurrences(hay@, needle@, 0, base as int) == found@ + occurrences(
                    hay@,
                    needle@,
                    from as int,
                    base as int,
                ),
                matches_inside(found@, base as int, base + from),
            decreases hay@.len() - from,
        {
            let rest = vstd::slice::slice_subrange(hay.as_slice(), from, hay.len());
            let next = find_substring(needle.as_slice(), rest);
            proof {
                lemma_first_at(hay@, needle@, from as int);
                assert forall|j: int| #![auto]
                    occurs_at(rest@, needle@, j) == (0 <= j && occurs_at(hay@, needle@, from + j)) by {
                    if 0 <= j && j + needle@.len() <= rest@.len() {
                        assert(rest@.subrange(j, j + needle@.len()) =~= hay@.subrange(
                            from + j,
                            from + j + needle@.len(),
                        ));
                    }
                }
            }
            match next {
                Some(at) => {
                    proof {
                        assert(occurs_at(rest@, needle@, at as int));
                        assert(occurs_at(hay@, needle@, from + at));
                        assert(first_at(hay@, needle@, from as int) == Some(from + at)) by {
                            let f = first_at(hay@, needle@, from as int);
                            if f is None {
                                assert(!occurs_at(hay@, needle@, from + at));
                            } else {
                                let fa = f.unwrap();
                                if fa < from + at {
                                    assert(occurs_at(rest@, needle@, fa - from));
                                }
                                if fa > from + at {
                                    assert(!occurs_at(hay@, needle@, from + at));
                                }
                            }
                        }
                    }
                    let start = from + at;
                    let end = start + needle.len();
                    let ghost before = found@;
                    found.push(ByteInterval { start: base + start, end: base + end });
                    proof {
                        let one = seq![
                            ByteInterval { start: (base + start) as usize, end: (base + end) as usize },
                        ];
                        assert(found@ =~= before + one);
                        assert(occurrences(hay@, needle@, from as int, base as int) == one
                            + occurrences(hay@, needle@, end as int, base as int));
                        assert(before + (one + occurrences(hay@, needle@, end as int, base as int))
                            =~= (before + one) + occurrences(hay@, needle@, end as int, base as int));
                    }
                    from = end;
                },
                None => {
                    proof {
                        let f = first_at(hay@, needle@, from as int);
                        if f is Some {
                            assert(occurs_at(rest@, needle@, f.unwrap() - from));
                        }
                        assert(occurrences(hay@, needle@, from as int, base as int) =~= Seq::<
                            ByteInterval,
                        >::empty());
                        assert(found@ + Seq::<ByteInterval>::empty() =~= found@);
                    }
                    return found;
                },
            }
        }
    }

    /// The matches of `found` that are not empty, moved on by `base`.
    fn shift_matches(found: &Vec<ByteInterval>, base: usize, len: usize) -> (r: Vec<ByteInterval>)
        requires
            base + len <= usize::MAX,
            forall|i: int|
                0 <= i < found@.len() ==> (#[trigger] found@[i]).start <= found@[i].end <= len,
            forall|i: int, j: int|
                0 <= i < j < found@.len() ==> (#[trigger] found@[i]).end <= (
                #[trigger] found@[j]).start,
        ensures
            r@ == shifted_matches(found@, base as int, found@.len() as int),
            matches_inside(r@, base as int, base + len),
    {
        let mut out: Vec<ByteInterval> = Vec::new();
        let mut i: usize = 0;
        while i < found.len()
            invariant
                i <= found.len(),
                base + len <= usize::MAX,
                forall|k: int|
                    0 <= k < found@.len() ==> (#[trigger] found@[k]).start <= found@[k].end <= len,
                forall|a: int, b: int|
                    0 <= a < b < found@.len() ==> (#[trigger] found@[a]).end <= (
                    #[trigger] found@[b]).start,
                out@ == shifted_matches(found@, base as int, i as int),
                matches_inside(out@, base as int, base + len),
                forall|k: int|
                    0 <= k < out@.len() ==> i > 0 && (#[trigger] out@[k]).end <= base + found@[i
                        - 1].end,
            decreases found.len() - i,
        {
            let m = found[i];
            if m.start < m.end {
                proof {
                    if i > 0 {
                        assert(found@[i - 1].end <= found@[i as int].start);
                    }
                }
                out.push(ByteInterval { start: base + m.start, end: base + m.end });
            } else {
                proof {
                    if i > 0 {
                        assert(found@[i - 1].end <= found@[i as int].start);
                    }
                }
            }
            i += 1;
        }
        out
    }

    /// Where the pattern matches inside each region of the buffer's
    /// selection, one list for each region.
    pub fn map_selections_to_matches(&self, buffer: &Buffer) -> (r: Vec<Vec<ByteInterval>>)
        requires
            buffer.wf(),
            self.pieces@.len() > 0,
        ensures
            r@.len() == buffer@.selection.regions.len(),
            forall|i: int|
                0 <= i < r@.len() ==> (#[trigger] r@[i])@ == region_matches(
                    self.pieces@,
                    buffer@.data,
                    buffer@.selection.regions[i],
                ) && matches_inside(
                    r@[i]@,
                    buffer@.selection.regions[i].spec_min(),
                    int_min(
                        buffer@.selection.regions[i].spec_max() + 1,
                        buffer@.data.len() as int,
                    ),
                ),
    {
        proof {
            buffer.lemma_wf();
        }
        let data = buffer.data();
        let len = data.len();
        let regions = buffer.selection().iter();
        let basic = self.as_basic_slice();
        let expr = self.to_expression();
        let mut all: Vec<Vec<ByteInterval>> = Vec::new();
        let mut i: usize = 0;
        while i < regions.len()
            invariant
                i <= regions.len(),
                all@.len() == i,
                self.pieces@.len() > 0,
                len == data@.len(),
                data@ == buffer@.data,
                regions@ == buffer@.selection.regions,
                buffer@.inv(),
                expr@ == expression(self.pieces@, self.pieces@.len() as int),
                match basic {
                    Some(bytes) => basic_bytes(self.pieces@, self.pieces@.len() as int) == Some(
                        bytes@,
                    ) && bytes@.len() == self.pieces@.len(),
                    None => basic_bytes(self.pieces@, self.pieces@.len() as int) is None,
                },
                forall|k: int|
                    0 <= k < i ==> (#[trigger] all@[k])@ == region_matches(
                        self.pieces@,
                        data@,
                        regions@[k],
                    ) && matches_inside(
                        all@[k]@,
                        regions@[k].spec_min(),
                        int_min(regions@[k].spec_max() + 1, len as int),
                    ),
            decreases regions.len() - i,
        {
            let region = regions[i];
            assert(region.bounded(len as int));
            let end: usize = if region.max() < len {
                region.max() + 1
            } else {
                len
            };
            let hay = data.slice_to_cow(region.min(), end);
            let found = match &basic {
                Some(needle) => Self::occurrences_in(needle, &hay, region.min()),
                None => {
                    let raw = regex_matches(&expr, hay.as_slice());
                    Self::shift_matches(&raw, region.min(), hay.len())
                },
            };
            all.push(found);
            i += 1;
        }
        all
    }
}

/// Once a wildcard is among the pieces, the pattern has no bytes.
pub proof fn lemma_basic_bytes_none(pieces: Seq<PatternPiece>, k: int, n: int)
    requires
        0 <= k <= n,
        basic_bytes(pieces, k) is None,
    ensures
        basic_bytes(pieces, n) is None,
    decreases n - k,
{
    if k < n {
        lemma_basic_bytes_none(pieces, k, n - 1);
    }
}

/// The mode that takes a finished pattern.
#[derive(Debug, PartialEq, Eq, Clone, Copy, Structural)]
pub enum SearchAcceptor {
    Collapse(Collapse),
    Split(Split),
}

impl SearchAcceptor {
    /// The name of the mode that takes the pattern.
    pub open spec fn name_text(self) -> Seq<char> {
        match self {
            SearchAcceptor::Collapse(_) => "COLLAPSE"@,
            SearchAcceptor::Split(mode) => "SPLIT"@ + mode.count_state.text(),
        }
    }

    /// What the mode that takes the pattern makes of a buffer: with the
    /// pattern `pieces`, the selection is collapsed onto the matches or
    /// split at them; an empty pattern changes nothing.
    pub open spec fn applied(self, pieces: Seq<PatternPiece>, b: BufferView) -> BufferView {
        if pieces.len() == 0 {
            b
        } else {
            match self {
                SearchAcceptor::Collapse(_) => Collapse::collapsed(
                    b,
                    crate::modes::collapse::selection_matches(pieces, b),
                ),
                SearchAcceptor::Split(_) => Split::split(
                    b,
                    crate::modes::collapse::selection_matches(pieces, b),
                ),
            }
        }
    }

    pub fn name(&self) -> (r: String)
        ensures
            r@ == self.name_text(),
    {
        match self {
            SearchAcceptor::Collapse(mode) => mode.name(),
            SearchAcceptor::Split(mode) => mode.name(),
        }
    }

    /// Hands the pattern to the mode that takes it.
    pub fn apply_search(
        &self,
        pattern: Pattern,
        buffers: &mut Buffers,
        options: &mut ViewOptions,
    ) -> (r: ModeTransition)
        requires
            old(buffers).wf(),
        ensures
            final(buffers).wf(),
            layout_kept(*old(options), *final(options)),
            r.is_new_mode(Mode::Normal(Normal::new_spec())),
            final(buffers)@.current == old(buffers)@.current,
            final(buffers)@.list == old(buffers)@.list.update(
                old(buffers)@.current,
                self.applied(pattern.pieces@, old(buffers)@.list[old(buffers)@.current]),
            ),
    {
        match self {
            SearchAcceptor::Collapse(mode) => mode.apply_search(pattern, buffers, options),
            SearchAcceptor::Split(mode) => mode.apply_search(pattern, buffers, options),
        }
    }
}

/// The prompt in which a pattern is typed, byte by byte or, in hex, digit
/// by digit.
pub struct Search {
    pub pattern: Pattern,
    pub cursor: usize,
    pub hex: bool,
    pub hex_half: Option<u8>,
    pub next: SearchAcceptor,
}

/// What a key does in the prompt.
#[derive(Debug, PartialEq, Eq, Clone, Copy, Structural)]
pub enum Action {
    InsertNull,
    InsertWilcard,
    RemoveLast,
    RemoveThis,
    CursorLeft,
    CursorRight,
    SwitchInputMode,
    Finish,
    Cancel,
}

/// The keys of the prompt.
pub open spec fn bindings() -> Seq<(KeyEvent, Action)> {
    seq![
        (KeyEvent::key(KeyCode::Backspace), Action::RemoveLast),
        (KeyEvent::key(KeyCode::Delete), Action::RemoveThis),
        (KeyEvent::key(KeyCode::Enter), Action::Finish),
        (KeyEvent::key(KeyCode::Esc), Action::Cancel),
        (KeyEvent::key(KeyCode::Left), Action::CursorLeft),
        (KeyEvent::key(KeyCode::Right), Action::CursorRight),
        (KeyEvent::ctrl('o'), Action::SwitchInputMode),
        (KeyEvent::ctrl('n'), Action::InsertNull),
        (KeyEvent::ctrl('w'), Action::InsertWilcard),
    ]
}

pub fn default_maps() -> (r: KeyMap<Action>)
    ensures
        r.maps@ == bindings(),
{
    let mut map = KeyMap::new();
    map.key(KeyCode::Backspace, Action::RemoveLast);
    map.key(KeyCode::Delete, Action::RemoveThis);
    map.key(KeyCode::Enter, Action::Finish);
    map.key(KeyCode::Esc, Action::Cancel);
    map.key(KeyCode::Left, Action::CursorLeft);
    map.key(KeyCode::Right, Action::CursorRight);
    map.ctrl('o', Action::SwitchInputMode);
    map.ctrl('n', Action::InsertNull);
    map.ctrl('w', Action::InsertWilcard);
    assert(map.maps@ =~= bindings());
    map
}

/// What the prompt holds.
pub struct SearchView {
    pub pieces: Seq<PatternPiece>,
    pub cursor: int,
    pub hex: bool,
    pub hex_half: Option<u8>,
    pub next: SearchAcceptor,
}

impl SearchView {
    /// The cursor as the keys see it: inside the pattern, and behind the
    /// byte of which one digit is typed.
    pub open spec fn place(self) -> int {
        let inside = int_min(self.cursor, self.pieces.len() as int);
        if self.hex_half is Some && inside < self.pieces.len() {
            inside + 1
        } else {
            inside
        }
    }

    /// What an editing key makes of the prompt; `None` for the keys that
    /// end it and for Backspace at the start, which changes nothing.
    pub open spec fn edited(self, action: Action) -> Option<SearchView> {
        let at = self.place();
        let done = SearchView { cursor: at, hex_half: None, ..self };
        match action {
            Action::InsertNull => Some(
                SearchView {
                    pieces: self.pieces.insert(at, PatternPiece::Literal(0)),
                    cursor: at + 1,
                    ..done
                },
            ),
            Action::InsertWilcard => Some(
                SearchView {
                    pieces: self.pieces.insert(at, PatternPiece::Wildcard),
                    cursor: at + 1,
                    ..done
                },
            ),
            Action::RemoveLast => if at != 0 {
                Some(SearchView { pieces: self.pieces.remove(at - 1), cursor: at - 1, ..done })
            } else {
                None
            },
            Action::RemoveThis => Some(
                if at < self.pieces.len() {
                    SearchView { pieces: self.pieces.remove(at), ..done }
                } else {
                    done
                },
            ),
            Action::CursorLeft => Some(
                if at != 0 {
                    SearchView { cursor: at - 1, ..done }
                } else {
                    done
                },
            ),
            Action::CursorRight => Some(
                if at < self.pieces.len() {
                    SearchView { cursor: at + 1, ..done }
                } else {
                    done
                },
            ),
            Action::SwitchInputMode => Some(SearchView { hex: !self.hex, ..done }),
            Action::Cancel => None,
            Action::Finish => None,
        }
    }

    /// What a typed character makes of the prompt: in ascii its byte goes
    /// in at the cursor; in hex the first digit puts in a byte with that
    /// digit on top and the second completes it. `None` for a character
    /// that is not taken.
    pub open spec fn typed(self, ch: char) -> Option<SearchView> {
        let at = int_min(self.cursor, self.pieces.len() as int);
        if !self.hex {
            Some(
                SearchView {
                    pieces: self.pieces.insert(at, PatternPiece::Literal(low_byte_of(ch))),
                    cursor: at + 1,
                    ..self
                },
            )
        } else {
            match hex_value(ch) {
                None => None,
                Some(digit) => match self.hex_half {
                    Some(half) => if at < self.pieces.len() {
                        Some(
                            SearchView {
                                pieces: self.pieces.update(at, PatternPiece::Literal(half | digit)),
                                cursor: at + 1,
                                hex_half: None,
                                ..self
                            },
                        )
                    } else {
                        Some(
                            SearchView {
                                pieces: self.pieces.insert(at, PatternPiece::Literal(half | digit)),
                                cursor: at + 1,
                                hex_half: None,
                                ..self
                            },
                        )
                    },
                    None => Some(
                        SearchView {
                            pieces: self.pieces.insert(
                                at,
                                PatternPiece::Literal((digit * 16) as u8),
                            ),
                            cursor: at,
                            hex_half: Some((digit * 16) as u8),
                            ..self
                        },
                    ),
                },
            }
        }
    }
}

impl View for Search {
    type V = SearchView;

    open spec fn view(&self) -> SearchView {
        SearchView {
            pieces: self.pattern.pieces@,
            cursor: self.cursor as int,
            hex: self.hex,
            hex_half: self.hex_half,
            next: self.next,
        }
    }
}

impl Search {
    /// An empty prompt for `next`.
    pub fn new(next: SearchAcceptor, hex: bool) -> (r: Search)
        ensures
            r@ == (SearchView { pieces: Seq::empty(), cursor: 0, hex, hex_half: None, next }),
    {
        Search { next, hex, hex_half: None, cursor: 0, pattern: Pattern { pieces: Vec::new() } }
    }

    pub fn name(&self) -> (r: String)
        ensures
            r@ == self.next.name_text(),
    {
        self.next.name()
    }

    /// What an editing key makes of the prompt.
    fn edit(self, action: Action) -> (r: Option<Search>)
        requires
            self.pattern.pieces@.len() < usize::MAX,
        ensures
            match r {
                Some(search) => self@.edited(action) == Some(search@),
                None => self@.edited(action) is None,
            },
    {
        let mut pattern = self.pattern;
        let mut hex = self.hex;
        let mut cursor: usize = if self.cursor < pattern.pieces.len() {
            self.cursor
        } else {
            pattern.pieces.len()
        };
        if self.hex_half.is_some() && cursor < pattern.pieces.len() {
            // A byte is half typed: it stays as it is, and the cursor goes on
            // behind it.
            cursor += 1;
        }
        match action {
            Action::InsertNull => {
                cursor = pattern.insert_literal(cursor, 0);
            },
            Action::InsertWilcard => {
                cursor = pattern.insert_wildcard(cursor);
            },
            Action::RemoveLast => {
                if cursor != 0 {
                    pattern.remove(cursor - 1);
                    cursor -= 1;
                } else {
                    return None;
                }
            },
            Action::RemoveThis => {
                pattern.remove(cursor);
            },
            Action::CursorLeft => {
                if cursor != 0 {
                    cursor -= 1;
                }
            },
            Action::CursorRight => {
                if cursor < pattern.pieces.len() {
                    cursor += 1;
                }
            },
            Action::SwitchInputMode => {
                hex = !hex;
            },
            Action::Cancel => {
                return None;
            },
            Action::Finish => {
                return None;
            },
        }
        Some(Search { pattern, cursor, hex, hex_half: None, next: self.next })
    }

    /// What a typed character makes of the prompt.
    fn type_char(self, ch: char) -> (r: Result<Search, Search>)
        requires
            self.pattern.pieces@.len() < usize::MAX,
        ensures
            match r {
                Ok(search) => self@.typed(ch) == Some(search@),
                Err(search) => self@.typed(ch) is None && search@ == self@,
            },
    {
        let mut pattern = self.pattern;
        let mut hex_half = self.hex_half;
        let mut cursor: usize = if self.cursor < pattern.pieces.len() {
            self.cursor
        } else {
            pattern.pieces.len()
        };
        if !self.hex {
            cursor = pattern.insert_literal(cursor, low_byte(ch));
        } else {
            match hex_digit(ch) {
                None => {
                    return Err(
                        Search {
                            pattern,
                            cursor: self.cursor,
                            hex: self.hex,
                            hex_half,
                            next: self.next,
                        },
                    );
                },
                Some(digit) => {
                    match hex_half {
                        Some(half) => {
                            if cursor < pattern.pieces.len() {
                                cursor = pattern.insert_half_literal(cursor, half | digit);
                            } else {
                                cursor = pattern.insert_literal(cursor, half | digit);
                            }
                            hex_half = None;
                        },
                        None => {
                            pattern.insert_literal(cursor, digit * 16);
                            hex_half = Some(digit * 16);
                        },
                    }
                },
            }
        }
        Ok(Search { pattern, cursor, hex_half, hex: self.hex, next: self.next })
    }

    /// What the prompt answers to an event. An editing key changes the
    /// prompt; Esc leads back to normal mode; Enter hands the pattern to
    /// the mode that takes it, which leads back to normal mode as well; a
    /// character without modifiers is typed into the pattern. The buffers
    /// stay as they are unless the pattern is handed on.
    pub open spec fn answers(
        self,
        event: Event,
        before: BuffersView,
        r: ModeTransition,
        after: BuffersView,
    ) -> bool {
        match bound_action(bindings(), event) {
            Some(Action::Finish) => r.is_new_mode(Mode::Normal(Normal::new_spec()))
                && after.current == before.current && after.list == before.list.update(
                before.current,
                self.next.applied(self.pattern.pieces@, before.list[before.current]),
            ),
            Some(Action::Cancel) => after == before && r.is_new_mode(
                Mode::Normal(Normal::new_spec()),
            ),
            Some(action) => after == before && r.is_search(
                match self@.edited(action) {
                    Some(next) => next,
                    None => self@,
                },
            ),
            None => after == before && match event {
                Event::Key(KeyEvent { code: KeyCode::Char(ch), modifiers }) => if modifiers
                    == crate::keymap::KeyModifiers::none() {
                    match self@.typed(ch) {
                        Some(next) => r.is_search(next),
                        None => r.hands_back_search(self@),
                    }
                } else {
                    r.hands_back_search(self@)
                },
                _ => r.hands_back_search(self@),
            },
        }
    }

    pub fn transition(self, evt: &Event, buffers: &mut Buffers, options: &mut ViewOptions) -> (r:
        ModeTransition)
        requires
            old(buffers).wf(),
        ensures
            final(buffers).wf(),
            layout_kept(*old(options), *final(options)),
            self.pattern.pieces@.len() < usize::MAX ==> self.answers(
                *evt,
                old(buffers)@,
                r,
                final(buffers)@,
            ),
    {
        if self.pattern.pieces.len() == usize::MAX {
            return ModeTransition::not_handled(Mode::Search(self));
        }
        match default_maps().event_to_action(evt) {
            Some(Action::Cancel) => ModeTransition::new_mode(Mode::Normal(Normal::new())),
            Some(Action::Finish) => {
                let next = self.next;
                next.apply_search(self.pattern, buffers, options)
            },
            Some(action) => {
                let ghost before = self@;
                let kept = Search {
                    pattern: Pattern { pieces: self.pattern.pieces.clone() },
                    cursor: self.cursor,
                    hex: self.hex,
                    hex_half: self.hex_half,
                    next: self.next,
                };
                assert(kept@.pieces =~= before.pieces);
                match self.edit(action) {
                    Some(search) => ModeTransition::new_mode(Mode::Search(search)),
                    None => ModeTransition::new_mode(Mode::Search(kept)),
                }
            },
            None => {
                match evt {
                    Event::Key(KeyEvent { code: KeyCode::Char(ch), modifiers }) => {
                        if !modifiers.is_empty() {
                            return ModeTransition::not_handled(Mode::Search(self));
                        }
                        match self.type_char(*ch) {
                            Ok(search) => ModeTransition::new_mode(Mode::Search(search)),
                            Err(search) => ModeTransition::not_handled(Mode::Search(search)),
                        }
                    },
                    _ => ModeTransition::not_handled(Mode::Search(self)),
                }
            },
        }
    }
}

} // verus!
